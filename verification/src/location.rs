//! Board coordinates and their axis-aligned neighbour candidates.

use vstd::prelude::*;

verus! {

/// An immutable (column, row) coordinate on a square grid.
#[derive(Debug, Copy, Clone, Eq, PartialEq, Hash, Structural)]
pub struct Location {
    pub row: usize,
    pub col: usize,
}

/// Two locations are adjacent when they differ by one step along exactly one
/// axis.  This is the mathematical meaning of the neighbour candidates a
/// location produces: the near edges (column or row zero) have no neighbour
/// below them because no coordinate is negative, while the far edges are not
/// clamped here at all — a board discards candidates beyond its own size.
pub open spec fn adjacent(a: Location, b: Location) -> bool {
    (a.col == b.col && (a.row + 1 == b.row || b.row + 1 == a.row)) || (a.row == b.row && (a.col + 1
        == b.col || b.col + 1 == a.col))
}

/// The neighbour candidates of `l` in generation order:
/// left (if any), right, up (if any), down.
pub open spec fn neighbour_seq(l: Location) -> Seq<Location> {
    let left: Seq<Location> = if l.col > 0 {
        seq![(Location { row: l.row, col: (l.col - 1) as usize })]
    } else {
        seq![]
    };
    let up: Seq<Location> = if l.row > 0 {
        seq![(Location { row: (l.row - 1) as usize, col: l.col })]
    } else {
        seq![]
    };
    left + seq![(Location { row: l.row, col: (l.col + 1) as usize })] + up + seq![
        (Location { row: (l.row + 1) as usize, col: l.col }),
    ]
}

/// As long as no coordinate is at the numeric limit, the candidate list is
/// exactly the set of adjacent locations, without repetition.
pub proof fn lemma_neighbour_seq_adjacent(l: Location)
    requires
        l.col < usize::MAX,
        l.row < usize::MAX,
    ensures
        neighbour_seq(l).to_set() =~= Set::new(|n: Location| adjacent(l, n)),
        neighbour_seq(l).no_duplicates(),
        forall|i: int|
            0 <= i < neighbour_seq(l).len() ==> adjacent(l, #[trigger] neighbour_seq(l)[i]),
{
    let s = neighbour_seq(l);
    assert forall|n: Location| adjacent(l, n) implies s.to_set().contains(n) by {
        if l.col == n.col && l.row + 1 == n.row {
            assert(s[s.len() - 1] == n);
        } else if l.col == n.col && n.row + 1 == l.row {
            assert(s[s.len() - 2] == n);
        } else if l.row == n.row && l.col + 1 == n.col {
            assert(s[if l.col > 0 { 1int } else { 0int }] == n);
        } else {
            assert(s[0] == n);
        }
    }
    assert forall|n: Location| s.to_set().contains(n) implies adjacent(l, n) by {
        let i = choose|i: int| 0 <= i < s.len() && s[i] == n;
    }
    assert forall|i: int| 0 <= i < s.len() implies adjacent(l, #[trigger] s[i]) by {}
}

impl Location {
    pub fn new(col: usize, row: usize) -> (r: Location)
        ensures
            r == (Location { row, col }),
    {
        Location { row, col }
    }

    #[inline]
    pub fn row(&self) -> (r: usize)
        ensures
            r == self.row,
    {
        self.row
    }

    #[inline]
    pub fn col(&self) -> (r: usize)
        ensures
            r == self.col,
    {
        self.col
    }

    /// The up-to-four axis-aligned neighbour candidates, in generation order.
    /// Candidates past the far edge of any particular board are produced too:
    /// callers filter with the board size they know.
    pub fn neighbours(&self) -> (r: Vec<Location>)
        requires
            self.col < usize::MAX,
            self.row < usize::MAX,
        ensures
            r@ == neighbour_seq(*self),
            r@.to_set() =~= Set::new(|n: Location| adjacent(*self, n)),
            r@.no_duplicates(),
    {
        proof {
            lemma_neighbour_seq_adjacent(*self);
        }
        let mut r: Vec<Location> = Vec::new();
        if self.col > 0 {
            r.push(Location { row: self.row, col: self.col - 1 });
        }
        r.push(Location { row: self.row, col: self.col + 1 });
        if self.row > 0 {
            r.push(Location { row: self.row - 1, col: self.col });
        }
        r.push(Location { row: self.row + 1, col: self.col });
        assert(r@ =~= neighbour_seq(*self));
        r
    }
}

/// The column index a coordinate-label letter denotes: `a`–`h` are columns
/// 0–7 and `j`–`t` columns 8–18, upper case alike — the letter `i` is
/// skipped, as usual on Go boards, to avoid confusion with `1`.
pub open spec fn letter_col(c: char) -> Option<int> {
    let v = c as u32;
    if 'a' as u32 <= v && v <= 'h' as u32 {
        Some(v - 'a' as u32)
    } else if 'A' as u32 <= v && v <= 'H' as u32 {
        Some(v - 'A' as u32)
    } else if 'j' as u32 <= v && v <= 't' as u32 {
        Some(v - 'j' as u32 + 8)
    } else if 'J' as u32 <= v && v <= 'T' as u32 {
        Some(v - 'J' as u32 + 8)
    } else {
        None
    }
}

/// The value of a label digit: `1`–`9`; rows are labelled from 1.
pub open spec fn digit_val(c: char) -> Option<int> {
    let v = c as u32;
    if '1' as u32 <= v && v <= '9' as u32 {
        Some(v - '0' as u32)
    } else {
        None
    }
}

/// The location a coordinate label such as `b5` or `A17` denotes: a column
/// letter, then a one- or two-digit 1-based row number.  `None` when the
/// text is not of that shape.
pub open spec fn label_loc(s: Seq<char>) -> Option<Location> {
    if s.len() != 2 && s.len() != 3 {
        None
    } else {
        match letter_col(s[0]) {
            None => None,
            Some(colv) => match digit_val(s[1]) {
                None => None,
                Some(d1) => if s.len() == 2 {
                    Some(Location { col: colv as usize, row: (d1 - 1) as usize })
                } else {
                    match digit_val(s[2]) {
                        None => None,
                        Some(d2) => Some(
                            Location { col: colv as usize, row: (d1 * 10 + d2 - 1) as usize },
                        ),
                    }
                },
            },
        }
    }
}

impl Location {
    /// Parse a human-readable coordinate label (`"b5"`, `"A17"`): exactly
    /// the labels `label_loc` accepts, to exactly the location it gives.
    pub fn parse_label(s: &str) -> (r: Result<Location, &'static str>)
        ensures
            r is Ok <==> label_loc(s@) is Some,
            r is Ok ==> r.unwrap() == label_loc(s@).unwrap(),
    {
        let n = s.unicode_len();
        if n != 2 && n != 3 {
            return Err("bad len");
        }
        let c0 = s.get_char(0);
        let v0 = c0 as u32;
        let col: usize;
        if 'a' as u32 <= v0 && v0 <= 'h' as u32 {
            col = (v0 - 'a' as u32) as usize;
        } else if 'A' as u32 <= v0 && v0 <= 'H' as u32 {
            col = (v0 - 'A' as u32) as usize;
        } else if 'j' as u32 <= v0 && v0 <= 't' as u32 {
            col = (v0 - 'j' as u32 + 8) as usize;
        } else if 'J' as u32 <= v0 && v0 <= 'T' as u32 {
            col = (v0 - 'J' as u32 + 8) as usize;
        } else {
            return Err("bad col");
        }
        let c1 = s.get_char(1);
        let v1 = c1 as u32;
        if !('1' as u32 <= v1 && v1 <= '9' as u32) {
            return Err("bad row 1");
        }
        let mut row: usize = (v1 - '0' as u32) as usize;
        if n == 3 {
            let c2 = s.get_char(2);
            let v2 = c2 as u32;
            if !('1' as u32 <= v2 && v2 <= '9' as u32) {
                return Err("bad row 2");
            }
            row = row * 10 + (v2 - '0' as u32) as usize;
        }
        Ok(Location::new(col, row - 1))
    }
}

/// The character labelling a board digit, `0` to `9`.
pub open spec fn digit_char(d: int) -> char {
    if d == 0 {
        '0'
    } else if d == 1 {
        '1'
    } else if d == 2 {
        '2'
    } else if d == 3 {
        '3'
    } else if d == 4 {
        '4'
    } else if d == 5 {
        '5'
    } else if d == 6 {
        '6'
    } else if d == 7 {
        '7'
    } else if d == 8 {
        '8'
    } else {
        '9'
    }
}

/// The decimal digits of `n`, most significant first.
pub open spec fn dec_digits(n: nat) -> Seq<char>
    decreases n,
{
    if n < 10 {
        seq![digit_char(n as int)]
    } else {
        dec_digits(n / 10) + seq![digit_char((n % 10) as int)]
    }
}

/// The letter labelling a board column: `A`–`H` for 0–7, then `J` on — `I`
/// is skipped; columns past 24 have no letter and show as `#`.
pub open spec fn col_letter(c: int) -> char {
    if c == 0 {
        'A'
    } else if c == 1 {
        'B'
    } else if c == 2 {
        'C'
    } else if c == 3 {
        'D'
    } else if c == 4 {
        'E'
    } else if c == 5 {
        'F'
    } else if c == 6 {
        'G'
    } else if c == 7 {
        'H'
    } else if c == 8 {
        'J'
    } else if c == 9 {
        'K'
    } else if c == 10 {
        'L'
    } else if c == 11 {
        'M'
    } else if c == 12 {
        'N'
    } else if c == 13 {
        'O'
    } else if c == 14 {
        'P'
    } else if c == 15 {
        'Q'
    } else if c == 16 {
        'R'
    } else if c == 17 {
        'S'
    } else if c == 18 {
        'T'
    } else if c == 19 {
        'U'
    } else if c == 20 {
        'V'
    } else if c == 21 {
        'W'
    } else if c == 22 {
        'X'
    } else if c == 23 {
        'Y'
    } else if c == 24 {
        'Z'
    } else {
        '#'
    }
}

/// The coordinate label of a location: its column letter, then its 1-based
/// row number.
pub open spec fn label_of(l: Location) -> Seq<char> {
    seq![col_letter(l.col as int)] + dec_digits((l.row + 1) as nat)
}

fn append_digit(out: &mut String, d: usize)
    requires
        d < 10,
    ensures
        final(out)@ == old(out)@ + seq![digit_char(d as int)],
{
    proof {
        reveal_strlit("0");
        reveal_strlit("1");
        reveal_strlit("2");
        reveal_strlit("3");
        reveal_strlit("4");
        reveal_strlit("5");
        reveal_strlit("6");
        reveal_strlit("7");
        reveal_strlit("8");
        reveal_strlit("9");
    }
    match d {
        0 => out.append("0"),
        1 => out.append("1"),
        2 => out.append("2"),
        3 => out.append("3"),
        4 => out.append("4"),
        5 => out.append("5"),
        6 => out.append("6"),
        7 => out.append("7"),
        8 => out.append("8"),
        _ => out.append("9"),
    }
    proof {
        assert(final(out)@ =~= old(out)@ + seq![digit_char(d as int)]);
    }
}

fn append_decimal(out: &mut String, n: usize)
    ensures
        final(out)@ == old(out)@ + dec_digits(n as nat),
    decreases n,
{
    if n >= 10 {
        append_decimal(out, n / 10);
    }
    append_digit(out, n % 10);
    proof {
        assert(final(out)@ =~= old(out)@ + dec_digits(n as nat));
    }
}

impl Location {
    /// The human-readable coordinate label of this location.
    pub fn label(&self) -> (r: String)
        requires
            self.row < usize::MAX,
        ensures
            r@ == label_of(*self),
    {
        proof {
            reveal_strlit("A");
            reveal_strlit("B");
            reveal_strlit("C");
            reveal_strlit("D");
            reveal_strlit("E");
            reveal_strlit("F");
            reveal_strlit("G");
            reveal_strlit("H");
            reveal_strlit("J");
            reveal_strlit("K");
            reveal_strlit("L");
            reveal_strlit("M");
            reveal_strlit("N");
            reveal_strlit("O");
            reveal_strlit("P");
            reveal_strlit("Q");
            reveal_strlit("R");
            reveal_strlit("S");
            reveal_strlit("T");
            reveal_strlit("U");
            reveal_strlit("V");
            reveal_strlit("W");
            reveal_strlit("X");
            reveal_strlit("Y");
            reveal_strlit("Z");
            reveal_strlit("#");
        }
        let mut out = String::new();
        match self.col {
            0 => out.append("A"),
            1 => out.append("B"),
            2 => out.append("C"),
            3 => out.append("D"),
            4 => out.append("E"),
            5 => out.append("F"),
            6 => out.append("G"),
            7 => out.append("H"),
            8 => out.append("J"),
            9 => out.append("K"),
            10 => out.append("L"),
            11 => out.append("M"),
            12 => out.append("N"),
            13 => out.append("O"),
            14 => out.append("P"),
            15 => out.append("Q"),
            16 => out.append("R"),
            17 => out.append("S"),
            18 => out.append("T"),
            19 => out.append("U"),
            20 => out.append("V"),
            21 => out.append("W"),
            22 => out.append("X"),
            23 => out.append("Y"),
            24 => out.append("Z"),
            _ => out.append("#"),
        }
        proof {
            assert(out@ =~= seq![col_letter(self.col as int)]);
        }
        append_decimal(&mut out, self.row + 1);
        proof {
            assert(out@ =~= label_of(*self));
        }
        out
    }
}

impl core::str::FromStr for Location {
    type Err = &'static str;

    fn from_str(s: &str) -> Result<Location, Self::Err> {
        Location::parse_label(s)
    }
}

/// The location at position `k` of the column-major, row-ascending
/// enumeration of a board of side `size`.
pub open spec fn loc_at(size: nat, k: int) -> Location {
    Location { row: (k % (size as int)) as usize, col: (k / (size as int)) as usize }
}

/// Every location of a board of side `size`, column-major, row-ascending.
pub open spec fn all_locations(size: nat) -> Seq<Location> {
    Seq::new(size * size, |i: int| loc_at(size, i))
}

/// An enumerator of every location of a board of a given side, in
/// column-major, row-ascending order.  Each board hands out a fresh one, so
/// the enumeration is restartable by asking again.
pub struct AllLocations {
    size: usize,
    r: usize,
    c: usize,
}

impl AllLocations {
    pub closed spec fn size(self) -> nat {
        self.size as nat
    }

    pub closed spec fn wf(self) -> bool {
        self.r < self.size || self.r == 0
    }

    /// The locations not yet yielded.
    pub closed spec fn remaining(self) -> Seq<Location> {
        if self.c >= self.size {
            Seq::empty()
        } else {
            Seq::new(
                ((self.size - self.c) * self.size - self.r) as nat,
                |i: int| loc_at(self.size as nat, self.c * self.size + self.r + i),
            )
        }
    }

    pub fn new(size: usize) -> (r: AllLocations)
        ensures
            r.wf(),
            r.size() == size,
            r.remaining() == all_locations(size as nat),
    {
        let r = AllLocations { size, r: 0, c: 0 };
        proof {
            assert(r.remaining() =~= all_locations(size as nat));
        }
        r
    }

    /// Yield the next location, or `None` once every one has been seen.
    pub fn next(&mut self) -> (ret: Option<Location>)
        requires
            old(self).wf(),
        ensures
            final(self).wf(),
            final(self).size() == old(self).size(),
            old(self).remaining().len() == 0 ==> ret is None && final(self).remaining().len() == 0,
            old(self).remaining().len() > 0 ==> ret == Some(old(self).remaining()[0])
                && final(self).remaining() == old(self).remaining().drop_first(),
    {
        let ghost pre = *self;
        if self.c >= self.size {
            return None;
        }
        proof {
            assert((pre.size() - pre.c()) * pre.size() - pre.rr() >= 1) by (nonlinear_arith)
                requires
                    pre.c() < pre.size(),
                    pre.rr() < pre.size() || pre.rr() == 0,
            ;
            assert(pre.remaining().len() > 0);
            assert(pre.remaining()[0] == (Location { row: pre.rr() as usize, col: pre.c() as usize }))
                by {
                let k = pre.c() * pre.size() + pre.rr();
                assert(k / (pre.size() as int) == pre.c() && k % (pre.size() as int) == pre.rr())
                    by (nonlinear_arith)
                    requires
                        k == pre.c() * pre.size() + pre.rr(),
                        0 <= pre.rr() < pre.size(),
                        0 <= pre.c(),
                ;
            }
        }
        let ret = Location { row: self.r, col: self.c };
        self.r = self.r + 1;
        if self.r >= self.size {
            self.r = 0;
            self.c = self.c + 1;
        }
        proof {
            lemma_all_locations_step(pre, *self);
        }
        Some(ret)
    }

    spec fn rr(self) -> int {
        self.r as int
    }

    spec fn c(self) -> int {
        self.c as int
    }
}

proof fn lemma_all_locations_step(pre: AllLocations, post: AllLocations)
    requires
        pre.wf(),
        pre.c() < pre.size(),
        pre.rr() < pre.size() || pre.rr() == 0,
        post.size() == pre.size(),
        pre.rr() + 1 < pre.size() ==> post.rr() == pre.rr() + 1 && post.c() == pre.c(),
        pre.rr() + 1 >= pre.size() ==> post.rr() == 0 && post.c() == pre.c() + 1,
    ensures
        post.wf(),
        post.remaining() == pre.remaining().drop_first(),
{
    let sz = pre.size() as int;
    assert((sz - pre.c()) * sz - pre.rr() >= 1) by (nonlinear_arith)
        requires
            pre.c() < sz,
            pre.rr() < sz || pre.rr() == 0,
    ;
    assert(pre.remaining().len() == (sz - pre.c()) * sz - pre.rr());
    assert((sz - pre.c()) * sz >= sz) by (nonlinear_arith)
        requires
            pre.c() < sz,
    ;
    if pre.rr() + 1 < sz {
        assert(post.c() * sz + post.rr() == pre.c() * sz + pre.rr() + 1);
        assert(post.remaining().len() == pre.remaining().len() - 1);
    } else {
        assert(post.c() * sz + post.rr() == pre.c() * sz + pre.rr() + 1) by (nonlinear_arith)
            requires
                post.c() == pre.c() + 1,
                post.rr() == 0,
                pre.rr() == sz - 1,
        ;
        assert((sz - post.c()) * sz == (sz - pre.c()) * sz - sz) by (nonlinear_arith)
            requires
                post.c() == pre.c() + 1,
        ;
        if post.c() < sz {
            assert(post.remaining().len() == pre.remaining().len() - 1);
        } else {
            assert((sz - pre.c()) * sz <= sz) by (nonlinear_arith)
                requires
                    pre.c() + 1 >= sz,
                    pre.c() < sz,
            ;
            assert(pre.remaining().len() == 1);
        }
    }
    assert(post.remaining() =~= pre.remaining().drop_first());
}

/// A one-shot enumerator of the neighbour candidates of one location,
/// yielding them in the same order as `Location::neighbours`.
pub struct Neighbours {
    loc: Location,
    n: usize,
}

impl Neighbours {
    /// The candidates not yet yielded.
    pub closed spec fn remaining(self) -> Seq<Location> {
        let left: Seq<Location> = if self.n == 0 && self.loc.col > 0 {
            seq![(Location { row: self.loc.row, col: (self.loc.col - 1) as usize })]
        } else {
            seq![]
        };
        let right: Seq<Location> = if self.n <= 1 {
            seq![(Location { row: self.loc.row, col: (self.loc.col + 1) as usize })]
        } else {
            seq![]
        };
        let up: Seq<Location> = if self.n <= 2 && self.loc.row > 0 {
            seq![(Location { row: (self.loc.row - 1) as usize, col: self.loc.col })]
        } else {
            seq![]
        };
        let down: Seq<Location> = if self.n <= 3 {
            seq![(Location { row: (self.loc.row + 1) as usize, col: self.loc.col })]
        } else {
            seq![]
        };
        left + right + up + down
    }

    pub closed spec fn loc(self) -> Location {
        self.loc
    }

    pub fn new(loc: &Location) -> (r: Neighbours)
        ensures
            r.loc() == *loc,
            r.remaining() == neighbour_seq(*loc),
    {
        let r = Neighbours { loc: *loc, n: 0 };
        proof {
            assert(r.remaining() =~= neighbour_seq(*loc));
        }
        r
    }

    /// Yield the next candidate, or `None` once all are gone.
    pub fn next(&mut self) -> (r: Option<Location>)
        requires
            old(self).loc().col < usize::MAX,
            old(self).loc().row < usize::MAX,
        ensures
            final(self).loc() == old(self).loc(),
            old(self).remaining().len() == 0 ==> r is None && final(self).remaining().len() == 0,
            old(self).remaining().len() > 0 ==> r == Some(old(self).remaining()[0])
                && final(self).remaining() == old(self).remaining().drop_first(),
    {
        let ghost pre = *self;
        if self.n == 0 {
            self.n = 1;
            if self.loc.col > 0 {
                proof {
                    assert(final(self).remaining() =~= pre.remaining().drop_first());
                }
                return Some(Location { row: self.loc.row, col: self.loc.col - 1 });
            }
        }
        if self.n == 1 {
            self.n = 2;
            proof {
                assert(final(self).remaining() =~= pre.remaining().drop_first());
            }
            return Some(Location { row: self.loc.row, col: self.loc.col + 1 });
        }
        if self.n == 2 {
            self.n = 3;
            if self.loc.row > 0 {
                proof {
                    assert(final(self).remaining() =~= pre.remaining().drop_first());
                }
                return Some(Location { row: self.loc.row - 1, col: self.loc.col });
            }
        }
        if self.n == 3 {
            self.n = 4;
            proof {
                assert(final(self).remaining() =~= pre.remaining().drop_first());
            }
            return Some(Location { row: self.loc.row + 1, col: self.loc.col });
        }
        None
    }
}

} // verus!
