use std::collections::HashSet;

use go::group::Group;
use go::location::Location;
use go::stone::Stone::{Black, White};

#[test]
fn group_simple() {
    let stones = vec![(Location::new(1, 1), Black)];
    let gs: Vec<Group> = Group::groups(stones);

    for g in gs {
        assert_eq!(g.colour(), Black);
        assert_eq!(g.locations(), vec![Location::new(1, 1)]);
    }
}

#[test]
fn single() {
    let stones = [
        ((1, 1), Black),
        ((1, 2), Black),
        ((1, 3), White),
        ((2, 1), White),
        ((2, 2), Black),
        ((2, 3), Black),
    ];
    let locs: Vec<(Location, _)> = stones
        .iter()
        .filter(|&&(_, c)| c == Black)
        .map(|&((col, row), c)| (Location::new(col, row), c))
        .collect();
    let gs: Vec<Group> = Group::groups(locs);

    assert_eq!(gs.len(), 1);

    let expect: HashSet<Location> = [(1, 1), (1, 2), (2, 2), (2, 3)]
        .iter()
        .map(|&(col, row)| Location::new(col, row))
        .collect();

    assert_eq!(gs[0].colour(), Black);
    assert_eq!(gs[0].locations().into_iter().collect::<HashSet<_>>(), expect);
}

#[test]
fn group_neighbours() {
    let stones = [
        ((1, 1), Black),
        ((1, 2), Black),
        ((1, 3), White),
        ((2, 1), White),
        ((2, 2), Black),
        ((2, 3), Black),
    ];
    let locs: Vec<(Location, _)> = stones
        .iter()
        .map(|&((col, row), c)| (Location::new(col, row), c))
        .collect();
    let gs: Vec<Group> = Group::groups(locs)
        .into_iter()
        .filter(|g| g.colour() == Black)
        .collect();

    assert_eq!(gs.len(), 1);

    let neighbours: HashSet<Location> = gs[0].neighbours().into_iter().collect();

    let members: HashSet<Location> = gs[0].locations().into_iter().collect();
    assert!(neighbours.is_disjoint(&members));

    let expect: HashSet<Location> = [
        (0, 1),
        (0, 2),
        (1, 0),
        (1, 3),
        (2, 1),
        (2, 4),
        (3, 2),
        (3, 3),
    ]
    .iter()
    .map(|&(col, row)| Location::new(col, row))
    .collect();

    assert_eq!(neighbours, expect);
}

#[test]
fn group_membership() {
    let g = Group::new(Black, Location::new(2, 3));
    assert!(g.contains(Location::new(2, 3)));
    assert!(!g.contains(Location::new(3, 2)));
    assert!(g.has(Black, Location::new(2, 3)));
    assert!(!g.has(White, Location::new(2, 3)));
    assert_eq!(g.colour(), Black);
}

#[test]
fn group_adjacency() {
    let g = Group::new(Black, Location::new(1, 1));
    assert!(g.adjacent(Black, Location::new(1, 2)));
    assert!(g.adjacent(Black, Location::new(0, 1)));
    assert!(!g.adjacent(Black, Location::new(2, 2)));
    assert!(!g.adjacent(White, Location::new(1, 2)));
    // a member is not adjacent to its own group
    assert!(!g.adjacent(Black, Location::new(1, 1)));
}

#[test]
fn group_merge() {
    let a = Group::new(Black, Location::new(0, 0));
    let b = Group::new(Black, Location::new(0, 1));
    let w = Group::new(White, Location::new(5, 5));

    let m = a.merge(&b).expect("same colour merges");
    assert_eq!(m.colour(), Black);
    let got: HashSet<Location> = m.locations().into_iter().collect();
    let expect: HashSet<Location> =
        [Location::new(0, 0), Location::new(0, 1)].into_iter().collect();
    assert_eq!(got, expect);

    assert!(a.merge(&w).is_none());
}

#[test]
fn two_groups_same_colour() {
    // two black stones with a gap stay two groups
    let stones = vec![
        (Location::new(0, 0), Black),
        (Location::new(2, 0), Black),
    ];
    let gs: Vec<Group> = Group::groups(stones);
    assert_eq!(gs.len(), 2);
    for g in &gs {
        assert_eq!(g.locations().len(), 1);
    }
}
