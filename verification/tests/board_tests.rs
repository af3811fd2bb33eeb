use go::board::Board;
use go::location::Location;
use go::stone::Stone::{Black, White};

#[test]
fn fromstr() {
    let b = Board::from_text(
        "\
        . . . # O O
        . . . # # O
        . . . . O #
        . . . . . . .
        ",
    );
    println!("Board:\n{}", b.to_text());
    let bstr = b.to_text();
    assert_eq!(
        bstr,
        "\
. . . # O O . \n\
. . . # # O . \n\
. . . . O # . \n\
. . . . . . . \n\
. . . . . . . \n\
. . . . . . . \n\
. . . . . . . \n\
"
    );
}

#[test]
fn play() {
    let mut b = Board::new_with_size(5);
    assert!(b.play(Location::new(0, 0), Black));

    let bstr = b.to_text();
    assert_eq!(
        bstr,
        "\
. . . . . \n\
. . . . . \n\
. . . . . \n\
. . . . . \n\
# . . . . \n\
"
    );

    assert!(!b.play(Location::new(0, 0), Black));
    assert!(!b.play(Location::new(0, 0), White));

    assert!(b.play(Location::new(1, 0), White));
    assert!(b.play(Location::new(1, 2), Black));
    assert!(b.play(Location::new(0, 1), White)); // capture

    assert!(b.play(Location::new(0, 2), Black));
    assert!(b.play(Location::new(1, 1), White));
    assert!(b.play(Location::new(2, 0), Black));
    assert!(b.play(Location::new(3, 3), White));
    assert!(b.play(Location::new(2, 1), Black));
    assert!(b.play(Location::new(3, 2), White));
    assert!(b.play(Location::new(0, 0), Black)); // capture

    println!("Board:\n{}", b.to_text());

    let bstr = b.to_text();
    assert_eq!(
        bstr,
        "\
. . . . . \n\
. . . O . \n\
# # . O . \n\
. . # . . \n\
# . # . . \n\
"
    );
}

#[test]
fn play2() {
    let mut b = Board::from_text(
        "\
. . .
. # O
. . #
",
    );
    println!("Board:\n{}", b.to_text());
    assert!(b.play(Location::new(2, 2), White));
    println!("After:\n{}", b.to_text());
    assert_eq!(
        b.to_text(),
        "\
. . O \n\
. # O \n\
. . # \n\
"
    );
}

#[test]
fn play_out_of_bounds_rejected() {
    let mut b = Board::new_with_size(5);
    assert!(b.play(Location::new(2, 2), Black));
    let before = b.to_text();
    assert!(!b.play(Location::new(5, 0), Black));
    assert!(!b.play(Location::new(0, 5), White));
    assert!(!b.play(Location::new(17, 23), Black));
    assert_eq!(b.to_text(), before);
}

#[test]
fn play_occupied_rejected() {
    let mut b = Board::new_with_size(3);
    assert!(b.play(Location::new(1, 1), White));
    let before = b.to_text();
    assert!(!b.play(Location::new(1, 1), Black));
    assert!(!b.play(Location::new(1, 1), White));
    assert_eq!(b.to_text(), before);
}

#[test]
fn capture_takes_precedence_over_suicide() {
    // a lone white stone in the corner with its one liberty at (0,1);
    // black plays there: the white stone is captured and the black stone
    // stays, its liberty being the point just freed
    let mut b = Board::from_text(
        "\
. . .
. . .
O # .
",
    );
    assert!(b.play(Location::new(0, 1), Black));
    assert_eq!(b.get(Location::new(0, 1)), Some(Black));
    assert_eq!(b.get(Location::new(1, 0)), Some(Black));
    assert_eq!(b.get(Location::new(0, 0)), None);
    assert_eq!(
        b.to_text(),
        "\
. . . \n\
# . . \n\
. # . \n\
"
    );
}

#[test]
fn suicide_removes_played_group() {
    // the centre point is surrounded by white with plenty of liberties;
    // black playing there captures nothing and vanishes
    let mut b = Board::from_text(
        "\
. O .
O . O
. O .
",
    );
    let before = b.to_text();
    assert!(b.play(Location::new(1, 1), Black));
    assert_eq!(b.get(Location::new(1, 1)), None);
    assert_eq!(b.to_text(), before);
}

#[test]
fn suicide_of_multi_stone_group() {
    // playing at (0,0) joins the black stones at (0,1) and (1,0) into one
    // three-stone group whose last liberty that play just filled, and which
    // captures nothing: all three black stones vanish, white stays
    let mut b = Board::from_text(
        "\
. . . .
O O . .
# O O .
. # O .
",
    );
    assert!(b.play(Location::new(0, 0), Black));
    assert_eq!(b.get(Location::new(0, 0)), None);
    assert_eq!(b.get(Location::new(1, 0)), None);
    assert_eq!(b.get(Location::new(0, 1)), None);
    assert_eq!(
        b.to_text(),
        "\
. . . . \n\
O O . . \n\
. O O . \n\
. . O . \n\
"
    );
}

#[test]
fn capture_multi_stone_group_on_edge() {
    // the two-stone white column on the left edge loses its last liberty
    let mut b = Board::from_text(
        "\
. . .
O # .
O # .
",
    );
    assert!(b.play(Location::new(0, 2), Black));
    assert_eq!(b.get(Location::new(0, 0)), None);
    assert_eq!(b.get(Location::new(0, 1)), None);
    assert_eq!(
        b.to_text(),
        "\
# . . \n\
. # . \n\
. # . \n\
"
    );
}

#[test]
fn get_reflects_last_mutation() {
    let mut b = Board::new_with_size(5);
    let l = Location::new(2, 3);
    assert_eq!(b.get(l), None);
    assert_eq!(b.add(l, Black), None);
    assert_eq!(b.get(l), Some(Black));
    assert_eq!(b.get(l), Some(Black));
    assert_eq!(b.add(l, White), Some(Black));
    assert_eq!(b.get(l), Some(White));
    assert_eq!(b.remove(&l), Some(White));
    assert_eq!(b.get(l), None);
    assert_eq!(b.remove(&l), None);
    // out of range reads are empty
    assert_eq!(b.get(Location::new(9, 9)), None);
}

#[test]
fn text_round_trip() {
    let mut b = Board::new_with_size(4);
    assert!(b.play(Location::new(0, 0), Black));
    assert!(b.play(Location::new(3, 2), White));
    assert!(b.play(Location::new(1, 3), Black));
    let b2 = Board::from_text(&b.to_text());
    assert_eq!(b2.size(), b.size());
    assert_eq!(b2.to_text(), b.to_text());
    let mut it = b.locations();
    while let Some(l) = it.next() {
        assert_eq!(b.get(l), b2.get(l));
    }
}

#[test]
fn from_text_sizes() {
    // wider than tall: the width wins
    let b = Board::from_text(". # . O .\n");
    assert_eq!(b.size(), 5);
    assert_eq!(b.get(Location::new(1, 4)), Some(Black));
    assert_eq!(b.get(Location::new(3, 4)), Some(White));
    // taller than wide: the height wins
    let b = Board::from_text("#\n.\n.\n");
    assert_eq!(b.size(), 3);
    assert_eq!(b.get(Location::new(0, 2)), Some(Black));
    // unknown characters are ignored, X and o are stones too
    let b = Board::from_text("| X o |\n");
    assert_eq!(b.size(), 2);
    assert_eq!(b.get(Location::new(0, 1)), Some(Black));
    assert_eq!(b.get(Location::new(1, 1)), Some(White));
}

#[test]
fn empty_board_text() {
    let b = Board::new_with_size(2);
    assert_eq!(b.to_text(), ". . \n. . \n");
    let b = Board::from_text("");
    assert_eq!(b.size(), 0);
    assert_eq!(b.to_text(), "");
}

#[test]
fn liberties_on_board() {
    let mut b = Board::new_with_size(5);
    assert!(b.play(Location::new(0, 0), Black));
    let gs = b.groups(Black);
    assert_eq!(gs.len(), 1);
    let libs = b.liberties(&gs[0]);
    let libset: std::collections::HashSet<Location> = libs.into_iter().collect();
    let expect: std::collections::HashSet<Location> =
        [Location::new(1, 0), Location::new(0, 1)].into_iter().collect();
    assert_eq!(libset, expect);
}

#[test]
fn groups_partition_stones() {
    let b = Board::from_text(
        "\
# # . O .
. # . O .
. . . . .
# . O O .
# . . . .
",
    );
    for colour in [Black, White] {
        let gs = b.groups(colour);
        // every stone of the colour is in exactly one group
        let mut it = b.locations();
        while let Some(l) = it.next() {
            let expected = if b.get(l) == Some(colour) { 1 } else { 0 };
            let n = gs.iter().filter(|g| g.contains(l)).count();
            assert_eq!(n, expected);
        }
        // and no two groups touch
        for i in 0..gs.len() {
            for j in 0..gs.len() {
                if i != j {
                    assert!(!gs[i].groupadjacent(&gs[j]));
                }
            }
        }
    }
    assert_eq!(b.groups(Black).len(), 2);
    assert_eq!(b.groups(White).len(), 2);
}

#[test]
fn board_points() {
    let mut b = Board::new_with_size(3);
    let l = Location::new(1, 2);
    assert_eq!(b.add(l, White), None);
    let p = b.point(&l);
    assert_eq!(p, go::board::Point(l, Some(White)));
    assert_eq!(b.size(), 3);
    assert!(b.validloc(&l));
    assert!(!b.validloc(&Location::new(3, 0)));
}
