use std::str::FromStr;

use go::location::{AllLocations, Location, Neighbours};

#[test]
fn allloc() {
    let mut it = AllLocations::new(3);
    let mut got: Vec<Location> = Vec::new();
    while let Some(l) = it.next() {
        got.push(l);
    }
    assert_eq!(
        got,
        vec![
            Location::new(0, 0),
            Location::new(0, 1),
            Location::new(0, 2),
            Location::new(1, 0),
            Location::new(1, 1),
            Location::new(1, 2),
            Location::new(2, 0),
            Location::new(2, 1),
            Location::new(2, 2),
        ]
    );
}

#[test]
fn location_neighbours() {
    assert_eq!(
        Location::new(0, 0).neighbours(),
        vec![Location::new(1, 0), Location::new(0, 1)]
    );

    assert_eq!(
        Location::new(1, 1).neighbours(),
        vec![
            Location::new(0, 1),
            Location::new(2, 1),
            Location::new(1, 0),
            Location::new(1, 2),
        ]
    );
}

#[test]
fn parseloc() {
    assert_eq!(FromStr::from_str("a1"), Ok(Location::new(0, 0)));
    assert_eq!(FromStr::from_str("h1"), Ok(Location::new(7, 0)));
    assert_eq!(FromStr::from_str("j1"), Ok(Location::new(8, 0)));
    assert_eq!(FromStr::from_str("t1"), Ok(Location::new(18, 0)));
    assert_eq!(FromStr::from_str("a19"), Ok(Location::new(0, 18)));
    assert_eq!(FromStr::from_str("t19"), Ok(Location::new(18, 18)));

    assert_eq!(FromStr::from_str("A1"), Ok(Location::new(0, 0)));
    assert_eq!(FromStr::from_str("H1"), Ok(Location::new(7, 0)));
    assert_eq!(FromStr::from_str("J1"), Ok(Location::new(8, 0)));
    assert_eq!(FromStr::from_str("T1"), Ok(Location::new(18, 0)));
    assert_eq!(FromStr::from_str("A19"), Ok(Location::new(0, 18)));
    assert_eq!(FromStr::from_str("T19"), Ok(Location::new(18, 18)));
}

#[test]
fn parseloc_rejects() {
    assert!(Location::parse_label("").is_err());
    assert!(Location::parse_label("a").is_err());
    assert!(Location::parse_label("a123").is_err());
    assert!(Location::parse_label("i1").is_err());
    assert!(Location::parse_label("u1").is_err());
    assert!(Location::parse_label("a0").is_err());
    assert!(Location::parse_label("ab").is_err());
    assert!(Location::parse_label("a1x").is_err());
    assert!(Location::parse_label("1a").is_err());
}

#[test]
fn labels() {
    assert_eq!(Location::new(0, 0).label(), "A1");
    assert_eq!(Location::new(7, 0).label(), "H1");
    assert_eq!(Location::new(8, 0).label(), "J1");
    assert_eq!(Location::new(18, 18).label(), "T19");
    assert_eq!(Location::new(2, 104).label(), "C105");
    assert_eq!(Location::new(30, 0).label(), "#1");
}

#[test]
fn label_round_trip() {
    for col in 0..19usize {
        for row in 0..19usize {
            if (row + 1) % 10 == 0 {
                // a label row number with a `0` digit is not parseable:
                // the digits of a label are 1 to 9
                continue;
            }
            let l = Location::new(col, row);
            assert_eq!(Location::parse_label(&l.label()), Ok(l));
        }
    }
}

#[test]
fn neighbour_enumerator() {
    let l = Location::new(0, 2);
    let mut it = Neighbours::new(&l);
    let mut got: Vec<Location> = Vec::new();
    while let Some(n) = it.next() {
        got.push(n);
    }
    assert_eq!(got, l.neighbours());
    assert_eq!(
        got,
        vec![Location::new(1, 2), Location::new(0, 1), Location::new(0, 3)]
    );
}

#[test]
fn coordinates() {
    let l = Location::new(4, 7);
    assert_eq!(l.col(), 4);
    assert_eq!(l.row(), 7);
    assert_eq!(l, Location::new(4, 7));
    assert_ne!(l, Location::new(7, 4));
}
