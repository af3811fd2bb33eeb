//! The board: occupancy, placement, capture resolution, group enumeration
//! and liberty computation.

use vstd::prelude::*;

use crate::group::{
    border, component, connected, firsts_distinct, lemma_pairs_map_dom,
    lemma_pairs_map_index, pairs_map, Group,
};
use crate::location::{adjacent, all_locations, AllLocations, Location};
use crate::stone::{opp, Stone};

verus! {

/// Is `l` within a square board of side `size`?
pub open spec fn in_bounds(l: Location, size: nat) -> bool {
    l.col < size && l.row < size
}

/// The liberties of a set of stones on a board of side `size` with occupancy
/// `occ`: border candidates of the set that are on the board and empty.
pub open spec fn lib_set(occ: Map<Location, Stone>, size: nat, members: Set<Location>) -> Set<
    Location,
> {
    Set::new(
        |n: Location|
            border(members).contains(n) && in_bounds(n, size) && !occ.dom().contains(n),
    )
}

/// The set of stones has no liberty at all.
pub open spec fn no_liberties(occ: Map<Location, Stone>, size: nat, members: Set<Location>) -> bool {
    forall|n: Location| !(#[trigger] lib_set(occ, size, members).contains(n))
}

/// The stones of colour `c` whose whole group has no liberty: what a capture
/// sweep removes.
pub open spec fn capture_set(occ: Map<Location, Stone>, size: nat, c: Stone) -> Set<Location> {
    Set::new(
        |l: Location|
            occ.dom().contains(l) && occ[l] == c && no_liberties(occ, size, component(occ, l)),
    )
}

/// What the occupancy becomes when a stone of colour `s` is played on the
/// empty in-bounds point `loc`: the stone is placed; every opposing group
/// left without a liberty is removed; then, if the played stone's own group
/// has no liberty on the result, it is removed too (suicide).
pub open spec fn play_result(occ: Map<Location, Stone>, size: nat, loc: Location, s: Stone) -> Map<
    Location,
    Stone,
> {
    let occ1 = occ.insert(loc, s);
    let occ2 = occ1.remove_keys(capture_set(occ1, size, opp(s)));
    if no_liberties(occ2, size, component(occ2, loc)) {
        occ2.remove_keys(component(occ2, loc))
    } else {
        occ2
    }
}

/// Capture takes precedence over suicide: a lone white stone whose last
/// liberty is `loc` is captured by a black play at `loc`, and the played
/// stone stays on the board, because the captured point becomes its liberty.
/// The proviso asks that no other white group is captured by the same play;
/// those stones are then untouched.
pub proof fn lemma_capture_precedence(
    occ: Map<Location, Stone>,
    size: nat,
    loc: Location,
    w: Location,
)
    requires
        in_bounds(loc, size),
        in_bounds(w, size),
        !occ.dom().contains(loc),
        occ.dom().contains(w),
        occ[w] == Stone::White,
        component(occ, w) == Set::<Location>::empty().insert(w),
        lib_set(occ, size, Set::<Location>::empty().insert(w)) == Set::<Location>::empty().insert(
            loc,
        ),
        forall|l: Location|
            occ.dom().contains(l) && occ[l] == Stone::White && l != w ==> !no_liberties(
                occ.insert(loc, Stone::Black),
                size,
                component(occ.insert(loc, Stone::Black), l),
            ),
    ensures
        play_result(occ, size, loc, Stone::Black) == occ.insert(loc, Stone::Black).remove(w),
        !play_result(occ, size, loc, Stone::Black).dom().contains(w),
        play_result(occ, size, loc, Stone::Black).dom().contains(loc),
        play_result(occ, size, loc, Stone::Black)[loc] == Stone::Black,
{
    let occ1 = occ.insert(loc, Stone::Black);
    let wset = Set::<Location>::empty().insert(w);
    // the white stone's group is unchanged by the black placement
    assert(component(occ1, w) == wset) by {
        assert forall|b: Location|
            connected(occ1, Stone::White, w, b) == connected(occ, Stone::White, w, b) by {
            crate::group::lemma_connected_agree(occ1, occ, Stone::White, w, b);
        }
        assert(component(occ1, w) =~= component(occ, w));
    }
    // and it now has no liberty at all
    assert(no_liberties(occ1, size, component(occ1, w))) by {
        assert forall|n: Location| !(#[trigger] lib_set(occ1, size, wset).contains(n)) by {
            if lib_set(occ1, size, wset).contains(n) {
                assert(lib_set(occ, size, wset).contains(n));
                assert(n == loc);
            }
        }
    }
    // it is the whole capture set
    let cap = capture_set(occ1, size, opp(Stone::Black));
    assert(cap =~= wset) by {
        assert forall|l: Location| #[trigger] cap.contains(l) implies wset.contains(l) by {
            if l != w {
                assert(occ.dom().contains(l) && occ[l] == Stone::White);
            }
        }
    }
    let occ2 = occ1.remove_keys(cap);
    assert(occ2 =~= occ1.remove(w));
    // the captured point is a liberty of the played stone's own group
    assert(lib_set(occ, size, wset).contains(loc));
    assert(border(wset).contains(loc));
    assert(adjacent(w, loc));
    assert(occ2.dom().contains(loc) && occ2[loc] == Stone::Black);
    crate::group::lemma_connected_refl(occ2, Stone::Black, loc);
    assert(component(occ2, loc).contains(loc));
    assert(lib_set(occ2, size, component(occ2, loc)).contains(w)) by {
        assert(!component(occ2, loc).contains(w)) by {
            if component(occ2, loc).contains(w) {
                crate::group::lemma_connected_ends(occ2, Stone::Black, loc, w);
            }
        }
        assert(border(component(occ2, loc)).contains(w));
    }
    assert(!no_liberties(occ2, size, component(occ2, loc)));
    assert(play_result(occ, size, loc, Stone::Black) == occ2);
    assert(occ2 == occ1.remove(w));
}

/// Suicide: when a play captures nothing and the played stone's own group
/// ends with no liberty, that whole group — and nothing else — is removed.
pub proof fn lemma_suicide(occ: Map<Location, Stone>, size: nat, loc: Location, s: Stone)
    requires
        in_bounds(loc, size),
        !occ.dom().contains(loc),
        capture_set(occ.insert(loc, s), size, opp(s)) == Set::<Location>::empty(),
        no_liberties(occ.insert(loc, s), size, component(occ.insert(loc, s), loc)),
    ensures
        play_result(occ, size, loc, s) == occ.insert(loc, s).remove_keys(
            component(occ.insert(loc, s), loc),
        ),
        !play_result(occ, size, loc, s).dom().contains(loc),
        forall|l: Location|
            occ.dom().contains(l) && !component(occ.insert(loc, s), loc).contains(l)
                ==> #[trigger] play_result(occ, size, loc, s).dom().contains(l) && play_result(
                occ,
                size,
                loc,
                s,
            )[l] == occ[l],
{
    let occ1 = occ.insert(loc, s);
    let occ2 = occ1.remove_keys(capture_set(occ1, size, opp(s)));
    assert(occ2 =~= occ1);
    assert(occ1.dom().contains(loc) && occ1[loc] == s);
    crate::group::lemma_connected_refl(occ1, s, loc);
    assert(component(occ1, loc).contains(loc));
    assert(play_result(occ, size, loc, s) == occ1.remove_keys(component(occ1, loc)));
}

proof fn lemma_idx_bound(size: int, col: int, row: int)
    by (nonlinear_arith)
    requires
        0 <= col < size,
        0 <= row < size,
    ensures
        0 <= col * size + row < size * size,
{
}

proof fn lemma_idx_inj(size: int, c1: int, r1: int, c2: int, r2: int)
    by (nonlinear_arith)
    requires
        0 <= c1 < size,
        0 <= r1 < size,
        0 <= c2 < size,
        0 <= r2 < size,
        c1 * size + r1 == c2 * size + r2,
    ensures
        c1 == c2,
        r1 == r2,
{
}

/// Restricting an occupancy to the stones of one colour leaves every group
/// of that colour as it was: paths of a colour only walk its own stones.
proof fn lemma_colour_component(
    occ: Map<Location, Stone>,
    restr: Map<Location, Stone>,
    c: Stone,
    l: Location,
)
    requires
        forall|x: Location|
            #[trigger] restr.dom().contains(x) <==> (occ.dom().contains(x) && occ[x] == c),
        forall|x: Location| #[trigger] restr.dom().contains(x) ==> restr[x] == c,
        restr.dom().contains(l),
    ensures
        component(restr, l) == component(occ, l),
{
    assert(restr[l] == c && occ[l] == c);
    assert forall|x: Location|
        (restr.dom().contains(x) && restr[x] == c) <==> (#[trigger] occ.dom().contains(x) && occ[x]
            == c) by {
        if restr.dom().contains(x) {
            assert(restr[x] == c);
        }
        if occ.dom().contains(x) && occ[x] == c {
            assert(restr.dom().contains(x));
        }
    }
    assert forall|b: Location| true implies connected(restr, c, l, b) == connected(
        occ,
        c,
        l,
        b,
    ) by {
        crate::group::lemma_connected_agree(restr, occ, c, l, b);
    }
    assert(component(restr, l) =~= component(occ, l));
}

/// A location together with what occupies it, as reported by one board.
#[derive(Debug, Copy, Clone, Eq, PartialEq, Hash)]
pub struct Point(pub Location, pub Option<Stone>);

/// A square Go board: a side length and an occupancy map from in-bounds
/// locations to stones.  The board owns its occupancy; groups and liberties
/// are always computed from the current state.
#[derive(Debug, Clone)]
pub struct Board {
    size: usize,
    grid: Vec<Option<Stone>>,
}

impl View for Board {
    type V = Map<Location, Stone>;

    /// The occupancy: which in-bounds locations hold which stones.
    closed spec fn view(&self) -> Map<Location, Stone> {
        Map::new(
            |l: Location|
                l.col < self.size && l.row < self.size && self.grid@[l.col * self.size + l.row]
                    is Some,
            |l: Location| self.grid@[l.col * self.size + l.row].unwrap(),
        )
    }
}

impl Board {
    pub closed spec fn spec_size(&self) -> nat {
        self.size as nat
    }

    pub closed spec fn wf(&self) -> bool {
        self.grid@.len() == self.size * self.size && self.size * self.size <= usize::MAX
    }

    /// Every stone on a well-formed board is in bounds.
    pub proof fn lemma_occupied_in_bounds(&self)
        ensures
            forall|l: Location|
                #[trigger] self@.dom().contains(l) ==> in_bounds(l, self.spec_size()),
    {
    }

    /// An empty board of the traditional side of 19.
    pub fn new() -> (r: Board)
        ensures
            r.wf(),
            r.spec_size() == 19,
            r@ == Map::<Location, Stone>::empty(),
    {
        Board::new_with_size(19)
    }

    /// An empty board of side `size`.
    pub fn new_with_size(size: usize) -> (r: Board)
        requires
            size * size <= usize::MAX,
        ensures
            r.wf(),
            r.spec_size() == size,
            r@ == Map::<Location, Stone>::empty(),
    {
        let n = size * size;
        let grid: Vec<Option<Stone>> = vec![None;n];
        let r = Board { size, grid };
        proof {
            assert forall|l: Location| !(#[trigger] r@.dom().contains(l)) by {
                if l.col < size && l.row < size {
                    lemma_idx_bound(size as int, l.col as int, l.row as int);
                    assert(r.grid@[l.col * size + l.row] is None);
                }
            }
            assert(r@ =~= Map::<Location, Stone>::empty());
        }
        r
    }

    pub fn size(&self) -> (r: usize)
        ensures
            r == self.spec_size(),
    {
        self.size
    }

    /// Is `loc` on this board?
    pub fn validloc(&self, loc: &Location) -> (r: bool)
        ensures
            r == in_bounds(*loc, self.spec_size()),
    {
        loc.row < self.size && loc.col < self.size
    }

    /// What occupies `loc`: `None` when empty or out of range.
    pub fn get(&self, loc: Location) -> (r: Option<Stone>)
        requires
            self.wf(),
        ensures
            r == if self@.dom().contains(loc) {
                Some(self@[loc])
            } else {
                Option::<Stone>::None
            },
    {
        if loc.col >= self.size || loc.row >= self.size {
            return None;
        }
        proof {
            lemma_idx_bound(self.size as int, loc.col as int, loc.row as int);
        }
        let i = loc.col * self.size + loc.row;
        self.grid[i]
    }

    /// Place a stone directly, bypassing capture logic — for setting up
    /// positions.  The location must be on the board.  Returns what the
    /// point held before.
    pub fn add(&mut self, loc: Location, s: Stone) -> (r: Option<Stone>)
        requires
            old(self).wf(),
            in_bounds(loc, old(self).spec_size()),
        ensures
            final(self).wf(),
            final(self).spec_size() == old(self).spec_size(),
            r == if old(self)@.dom().contains(loc) {
                Some(old(self)@[loc])
            } else {
                Option::<Stone>::None
            },
            final(self)@ == old(self)@.insert(loc, s),
    {
        proof {
            lemma_idx_bound(self.size as int, loc.col as int, loc.row as int);
        }
        let i = loc.col * self.size + loc.row;
        let prev = self.grid[i];
        self.grid.set(i, Some(s));
        proof {
            assert forall|l: Location|
                l != loc && l.col < self.size && l.row < self.size implies 0 <= l.col * self.size
                + l.row < self.grid@.len() && l.col * self.size + l.row != loc.col * self.size
                + loc.row by {
                lemma_idx_bound(self.size as int, l.col as int, l.row as int);
                if l.col * self.size + l.row == loc.col * self.size + loc.row {
                    lemma_idx_inj(
                        self.size as int,
                        l.col as int,
                        l.row as int,
                        loc.col as int,
                        loc.row as int,
                    );
                }
            }
            assert(final(self)@ =~= old(self)@.insert(loc, s));
        }
        prev
    }

    /// Clear a point unconditionally, returning what it held.
    pub fn remove(&mut self, loc: &Location) -> (r: Option<Stone>)
        requires
            old(self).wf(),
        ensures
            final(self).wf(),
            final(self).spec_size() == old(self).spec_size(),
            r == if old(self)@.dom().contains(*loc) {
                Some(old(self)@[*loc])
            } else {
                Option::<Stone>::None
            },
            final(self)@ == old(self)@.remove(*loc),
    {
        if loc.col >= self.size || loc.row >= self.size {
            proof {
                assert(final(self)@ =~= old(self)@.remove(*loc));
            }
            return None;
        }
        proof {
            lemma_idx_bound(self.size as int, loc.col as int, loc.row as int);
        }
        let i = loc.col * self.size + loc.row;
        let prev = self.grid[i];
        self.grid.set(i, None);
        proof {
            assert forall|l: Location|
                l != *loc && l.col < self.size && l.row < self.size implies 0 <= l.col * self.size
                + l.row < self.grid@.len() && l.col * self.size + l.row != loc.col * self.size
                + loc.row by {
                lemma_idx_bound(self.size as int, l.col as int, l.row as int);
                if l.col * self.size + l.row == loc.col * self.size + loc.row {
                    lemma_idx_inj(
                        self.size as int,
                        l.col as int,
                        l.row as int,
                        loc.col as int,
                        loc.row as int,
                    );
                }
            }
            assert(final(self)@ =~= old(self)@.remove(*loc));
        }
        prev
    }

    /// A fresh enumerator of every location on this board, column-major,
    /// row-ascending.
    pub fn locations(&self) -> (r: AllLocations)
        ensures
            r.wf(),
            r.size() == self.spec_size(),
            r.remaining() == all_locations(self.spec_size()),
    {
        AllLocations::new(self.size)
    }

    /// A location paired with what this board holds there.
    pub fn point(&self, loc: &Location) -> (r: Point)
        requires
            self.wf(),
        ensures
            r == (Point(
                *loc,
                if self@.dom().contains(*loc) {
                    Some(self@[*loc])
                } else {
                    Option::<Stone>::None
                },
            )),
    {
        Point(*loc, self.get(*loc))
    }

    /// The stones of one colour on this board, one pair per occupied point,
    /// in column-major order.
    #[verifier::loop_isolation(false)]
    fn colour_stones(&self, colour: Stone) -> (r: Vec<(Location, Stone)>)
        requires
            self.wf(),
        ensures
            firsts_distinct(r@),
            forall|i: int|
                0 <= i < r@.len() ==> (#[trigger] r@[i]).0.col < usize::MAX && r@[i].0.row
                    < usize::MAX,
            pairs_map(r@) == Map::<Location, Stone>::new(
                |l: Location| self@.dom().contains(l) && self@[l] == colour,
                |l: Location| colour,
            ),
    {
        let ghost restr = Map::<Location, Stone>::new(
            |l: Location| self@.dom().contains(l) && self@[l] == colour,
            |l: Location| colour,
        );
        let mut r: Vec<(Location, Stone)> = Vec::new();
        let mut c: usize = 0;
        while c < self.size
            invariant
                0 <= c <= self.size,
                self.wf(),
                forall|k: int|
                    0 <= k < r@.len() ==> restr.dom().contains((#[trigger] r@[k]).0) && r@[k].1
                        == colour && r@[k].0.col < c,
                forall|l: Location|
                    restr.dom().contains(l) && l.col < c ==> exists|k: int|
                        0 <= k < r@.len() && (#[trigger] r@[k]).0 == l,
                firsts_distinct(r@),
            decreases self.size - c,
        {
            let mut w: usize = 0;
            while w < self.size
                invariant
                    0 <= w <= self.size,
                    0 <= c < self.size,
                    self.wf(),
                    forall|k: int|
                        0 <= k < r@.len() ==> restr.dom().contains((#[trigger] r@[k]).0) && r@[k].1
                            == colour && ((r@[k].0.col < c) || (r@[k].0.col == c && r@[k].0.row
                            < w)),
                    forall|l: Location|
                        restr.dom().contains(l) && (l.col < c || (l.col == c && l.row < w))
                            ==> exists|k: int| 0 <= k < r@.len() && (#[trigger] r@[k]).0 == l,
                    firsts_distinct(r@),
                decreases self.size - w,
            {
                let ghost r0 = r@;
                let l = Location { row: w, col: c };
                let here = self.get(l);
                let push_it = match here {
                    Some(st) => st == colour,
                    None => false,
                };
                if push_it {
                    r.push((l, colour));
                }
                w = w + 1;
                proof {
                    assert forall|ll: Location|
                        restr.dom().contains(ll) && (ll.col < c || (ll.col == c && ll.row
                            < w)) implies exists|k: int|
                        0 <= k < r@.len() && (#[trigger] r@[k]).0 == ll by {
                        if ll.col < c || (ll.col == c && ll.row < w - 1) {
                            let k = choose|k: int| 0 <= k < r0.len() && (#[trigger] r0[k]).0 == ll;
                            assert((r@[k]).0 == ll);
                        } else {
                            assert(ll == l);
                            assert((r@[r@.len() - 1]).0 == ll);
                        }
                    }
                }
            }
            c = c + 1;
        }
        proof {
            lemma_pairs_map_dom(r@);
            assert forall|l: Location| #[trigger] pairs_map(r@).dom().contains(l) implies
                restr.dom().contains(l) by {
                let i = choose|i: int| 0 <= i < r@.len() && (#[trigger] r@[i]).0 == l;
            }
            assert forall|l: Location| #[trigger] restr.dom().contains(l) implies pairs_map(
                r@,
            ).dom().contains(l) by {
                assert(in_bounds(l, self.spec_size()));
                let k = choose|k: int| 0 <= k < r@.len() && (#[trigger] r@[k]).0 == l;
            }
            assert forall|l: Location| #[trigger] pairs_map(r@).dom().contains(l) implies
                pairs_map(r@)[l] == colour by {
                let i = choose|i: int| 0 <= i < r@.len() && (#[trigger] r@[i]).0 == l;
                lemma_pairs_map_index(r@, i);
            }
            assert(pairs_map(r@) =~= restr);
            assert forall|i: int|
                0 <= i < r@.len() implies (#[trigger] r@[i]).0.col < usize::MAX && r@[i].0.row
                < usize::MAX by {
                assert(restr.dom().contains(r@[i].0));
            }
        }
        r
    }

    /// The maximal connected groups of one colour on this board.  Every
    /// stone of the colour lies in exactly one returned group; each group is
    /// the connected component of each of its members; distinct groups are
    /// disjoint.  The order of the groups is unspecified.
    pub fn groups(&self, colour: Stone) -> (r: Vec<Group>)
        requires
            self.wf(),
        ensures
            forall|i: int|
                0 <= i < r@.len() ==> (#[trigger] r@[i]).wf() && r@[i].coords_ok()
                    && r@[i].colour_of() == colour,
            forall|i: int, l: Location|
                0 <= i < r@.len() && (#[trigger] r@[i].members().contains(l)) ==> self@.dom().contains(
                    l,
                ) && self@[l] == colour && r@[i].members() == component(self@, l),
            forall|l: Location|
                self@.dom().contains(l) && self@[l] == colour ==> exists|i: int|
                    0 <= i < r@.len() && (#[trigger] r@[i].members().contains(l)),
            forall|i: int, j: int|
                0 <= i < j < r@.len() ==> r@[i].members().disjoint(r@[j].members()),
    {
        let pts = self.colour_stones(colour);
        let ghost restr = pairs_map(pts@);
        let gs = Group::groups(pts);
        proof {
            assert forall|l: Location| #[trigger] restr.dom().contains(l) implies component(
                restr,
                l,
            ) == component(self@, l) by {
                lemma_colour_component(self@, restr, colour, l);
            }
            assert forall|i: int, l: Location|
                0 <= i < gs@.len() && (#[trigger] gs@[i].members().contains(l)) implies
                self@.dom().contains(l) && self@[l] == colour && gs@[i].members() == component(
                self@,
                l,
            ) by {
                assert(restr.dom().contains(l));
            }
            assert forall|i: int|
                0 <= i < gs@.len() implies (#[trigger] gs@[i]).colour_of() == colour by {
                gs@[i].lemma_wf_nonempty();
                let l = choose|l: Location| gs@[i].members().contains(l);
                assert(gs@[i].members().contains(l));
                assert(restr[l] == gs@[i].colour_of());
            }
            assert forall|l: Location|
                self@.dom().contains(l) && self@[l] == colour implies exists|i: int|
                0 <= i < gs@.len() && (#[trigger] gs@[i].members().contains(l)) by {
                assert(restr.dom().contains(l));
            }
        }
        gs
    }

    /// Clear every location in the list.
    #[verifier::loop_isolation(false)]
    fn remove_all(&mut self, locs: &Vec<Location>)
        requires
            old(self).wf(),
        ensures
            final(self).wf(),
            final(self).spec_size() == old(self).spec_size(),
            final(self)@ == old(self)@.remove_keys(locs@.to_set()),
    {
        let mut i: usize = 0;
        while i < locs.len()
            invariant
                0 <= i <= locs@.len(),
                self.wf(),
                self.spec_size() == old(self).spec_size(),
                self@ == old(self)@.remove_keys(locs@.subrange(0, i as int).to_set()),
            decreases locs@.len() - i,
        {
            let ghost pre = self@;
            let l = locs[i];
            let _ = self.remove(&l);
            i = i + 1;
            proof {
                let sub1 = locs@.subrange(0, i as int);
                let sub0 = locs@.subrange(0, i as int - 1);
                assert forall|x: Location| #[trigger] sub1.to_set().contains(x) implies
                    sub0.to_set().contains(x) || x == l by {
                    let k = choose|k: int| 0 <= k < sub1.len() && sub1[k] == x;
                    if k < sub1.len() - 1 {
                        assert(sub0[k] == x);
                    }
                }
                assert forall|x: Location|
                    sub0.to_set().contains(x) || x == l implies #[trigger] sub1.to_set().contains(
                    x,
                ) by {
                    if sub0.to_set().contains(x) {
                        let k = choose|k: int| 0 <= k < sub0.len() && sub0[k] == x;
                        assert(sub1[k] == x);
                    } else {
                        assert(sub1[sub1.len() - 1] == locs@[i as int - 1]);
                    }
                }
                assert(self@ =~= old(self)@.remove_keys(sub1.to_set()));
            }
        }
        proof {
            assert(locs@.subrange(0, locs@.len() as int) =~= locs@);
        }
    }

    /// Play a stone of colour `s` at `loc`, with full capture and suicide
    /// resolution.  The move is rejected — `false`, board untouched — only
    /// when `loc` is off the board or occupied.  Otherwise the stone is
    /// placed, every opposing group left without a liberty is captured, and
    /// then the played stone's own group is removed if it has no liberty
    /// (suicide); the move itself is then reported successful.
    #[verifier::loop_isolation(false)]
    pub fn play(&mut self, loc: Location, s: Stone) -> (r: bool)
        requires
            old(self).wf(),
        ensures
            final(self).wf(),
            final(self).spec_size() == old(self).spec_size(),
            r == (in_bounds(loc, old(self).spec_size()) && !old(self)@.dom().contains(loc)),
            r ==> final(self)@ == play_result(old(self)@, old(self).spec_size(), loc, s),
            !r ==> final(self)@ == old(self)@,
    {
        let ghost occ0 = self@;
        let ghost size = self.spec_size();
        if !self.validloc(&loc) {
            return false;
        }
        if self.get(loc).is_some() {
            return false;
        }
        // place the stone
        let _ = self.add(loc, s);
        let ghost occ1 = self@;
        proof {
            assert(occ1 == occ0.insert(loc, s));
        }
        // find the opposing groups this stone may have killed, on the
        // post-placement occupancy
        let opp_groups = self.groups(s.not());
        let mut doomed: Vec<Location> = Vec::new();
        let mut gi: usize = 0;
        while gi < opp_groups.len()
            invariant
                0 <= gi <= opp_groups@.len(),
                forall|l: Location|
                    #[trigger] doomed@.contains(l) ==> exists|k: int|
                        0 <= k < gi && no_liberties(
                            occ1,
                            size,
                            (#[trigger] opp_groups@[k]).members(),
                        ) && opp_groups@[k].members().contains(l),
                forall|k: int, l: Location|
                    0 <= k < gi && no_liberties(occ1, size, (#[trigger] opp_groups@[k]).members())
                        && opp_groups@[k].members().contains(l) ==> #[trigger] doomed@.contains(l),
            decreases opp_groups@.len() - gi,
        {
            let ghost d0 = doomed@;
            let libs = self.liberties(&opp_groups[gi]);
            if libs.len() == 0 {
                proof {
                    assert forall|n: Location|
                        !(#[trigger] lib_set(occ1, size, opp_groups@[gi as int].members()).contains(
                            n,
                        )) by {
                        if libs@.to_set().contains(n) {
                            let k = choose|k: int| 0 <= k < libs@.len() && libs@[k] == n;
                        }
                    }
                }
                let mut mem = opp_groups[gi].locations();
                let ghost memv = mem@;
                doomed.append(&mut mem);
                proof {
                    assert(doomed@ == d0 + memv);
                    assert forall|l: Location|
                        opp_groups@[gi as int].members().contains(l) implies doomed@.contains(
                        l,
                    ) by {
                        assert(memv.to_set().contains(l));
                        let mi = choose|mi: int| 0 <= mi < memv.len() && memv[mi] == l;
                        assert(doomed@[d0.len() + mi] == l);
                    }
                    assert forall|l: Location| #[trigger] doomed@.contains(l) implies d0.contains(l)
                        || opp_groups@[gi as int].members().contains(l) by {
                        let di = choose|di: int| 0 <= di < doomed@.len() && doomed@[di] == l;
                        if di < d0.len() {
                            assert(d0[di] == l);
                        } else {
                            assert(memv[di - d0.len()] == l);
                            assert(memv.to_set().contains(l));
                        }
                    }
                }
            } else {
                proof {
                    assert(libs@.to_set().contains(libs@[0]));
                    assert(!no_liberties(occ1, size, opp_groups@[gi as int].members()));
                }
            }
            gi = gi + 1;
            proof {
                assert forall|l: Location| #[trigger] doomed@.contains(l) implies exists|k: int|
                    0 <= k < gi && no_liberties(occ1, size, (#[trigger] opp_groups@[k]).members())
                        && opp_groups@[k].members().contains(l) by {
                    if d0.contains(l) {
                        let k = choose|k: int|
                            0 <= k < gi - 1 && no_liberties(
                                occ1,
                                size,
                                (#[trigger] opp_groups@[k]).members(),
                            ) && opp_groups@[k].members().contains(l);
                        assert(0 <= k < gi && no_liberties(occ1, size, opp_groups@[k].members())
                            && opp_groups@[k].members().contains(l));
                    } else {
                        assert(opp_groups@[gi - 1].members().contains(l));
                        assert(no_liberties(occ1, size, opp_groups@[gi - 1].members()));
                    }
                }
                assert forall|k: int, l: Location|
                    0 <= k < gi && no_liberties(occ1, size, (#[trigger] opp_groups@[k]).members())
                        && opp_groups@[k].members().contains(l) implies #[trigger] doomed@.contains(
                    l,
                ) by {
                    if k < gi - 1 {
                        assert(d0.contains(l));
                        let di = choose|di: int| 0 <= di < d0.len() && d0[di] == l;
                        assert(doomed@[di] == l);
                    }
                }
            }
        }
        // what the doomed list holds is exactly the capture set
        let ghost cap = capture_set(occ1, size, opp(s));
        proof {
            assert forall|l: Location| #[trigger] doomed@.to_set().contains(l) implies cap.contains(
                l,
            ) by {
                let k = choose|k: int|
                    0 <= k < opp_groups@.len() && no_liberties(
                        occ1,
                        size,
                        (#[trigger] opp_groups@[k]).members(),
                    ) && opp_groups@[k].members().contains(l);
                assert(opp_groups@[k].members() == component(occ1, l));
            }
            assert forall|l: Location| cap.contains(l) implies #[trigger] doomed@.to_set().contains(
                l,
            ) by {
                assert(occ1.dom().contains(l) && occ1[l] == opp(s));
                let k = choose|k: int|
                    0 <= k < opp_groups@.len() && (#[trigger] opp_groups@[k].members().contains(l));
                assert(opp_groups@[k].members() == component(occ1, l));
                assert(no_liberties(occ1, size, opp_groups@[k].members()));
                assert(doomed@.contains(l));
            }
            assert(doomed@.to_set() =~= cap);
        }
        // capture them
        self.remove_all(&doomed);
        let ghost occ2 = self@;
        proof {
            assert(occ2 == occ1.remove_keys(cap));
            assert(opp(s) != s);
            assert(!cap.contains(loc));
            assert(occ2.dom().contains(loc) && occ2[loc] == s);
        }
        // re-examine the played stone's own group on the new occupancy
        let own_groups = self.groups(s);
        let mut oi: usize = 0;
        proof {
            assert(exists|i: int|
                oi <= i < own_groups@.len() && (#[trigger] own_groups@[i].members().contains(
                    loc,
                )));
        }
        while !own_groups[oi].contains(loc)
            invariant
                0 <= oi <= own_groups@.len(),
                exists|i: int|
                    oi <= i < own_groups@.len() && (#[trigger] own_groups@[i].members().contains(
                        loc,
                    )),
            decreases own_groups@.len() - oi,
        {
            oi = oi + 1;
            proof {
                let i = choose|i: int|
                    oi - 1 <= i < own_groups@.len() && (#[trigger] own_groups@[i].members().contains(
                        loc,
                    ));
                assert(i >= oi);
            }
        }
        proof {
            assert(own_groups@[oi as int].members() == component(occ2, loc));
        }
        let libs2 = self.liberties(&own_groups[oi]);
        if libs2.len() == 0 {
            proof {
                assert forall|n: Location|
                    !(#[trigger] lib_set(occ2, size, own_groups@[oi as int].members()).contains(
                        n,
                    )) by {
                    if libs2@.to_set().contains(n) {
                        let k = choose|k: int| 0 <= k < libs2@.len() && libs2@[k] == n;
                    }
                }
                assert(no_liberties(occ2, size, component(occ2, loc)));
            }
            let mem = own_groups[oi].locations();
            self.remove_all(&mem);
            proof {
                assert(final(self)@ == occ2.remove_keys(component(occ2, loc)));
            }
        } else {
            proof {
                assert(libs2@.to_set().contains(libs2@[0]));
                assert(!no_liberties(occ2, size, component(occ2, loc)));
            }
        }
        true
    }

    /// The liberties of a group on this board: its border candidates that
    /// are on the board and empty.  The group must carry coordinates below
    /// the numeric limit, as every group read off a board does.
    pub fn liberties(&self, group: &Group) -> (r: Vec<Location>)
        requires
            self.wf(),
            group.wf(),
            group.coords_ok(),
        ensures
            r@.to_set() == lib_set(self@, self.spec_size(), group.members()),
            r@.no_duplicates(),
    {
        let cand = group.neighbours();
        let mut r: Vec<Location> = Vec::new();
        let mut j: usize = 0;
        while j < cand.len()
            invariant
                0 <= j <= cand@.len(),
                self.wf(),
                cand@.to_set() == border(group.members()),
                cand@.no_duplicates(),
                r@.no_duplicates(),
                forall|n: Location|
                    #[trigger] r@.contains(n) ==> exists|k: int|
                        0 <= k < j && #[trigger] cand@[k] == n && in_bounds(n, self.spec_size())
                            && !self@.dom().contains(n),
                forall|n: Location, k: int|
                    0 <= k < j && #[trigger] cand@[k] == n && in_bounds(n, self.spec_size())
                        && !self@.dom().contains(n) ==> #[trigger] r@.contains(n),
            decreases cand@.len() - j,
        {
            let ghost r0 = r@;
            let n = cand[j];
            let keep = if self.validloc(&n) {
                self.get(n).is_none()
            } else {
                false
            };
            if keep {
                r.push(n);
            }
            j = j + 1;
            proof {
                if r@.len() > r0.len() {
                    assert(!r0.contains(n)) by {
                        if r0.contains(n) {
                            let k = choose|k: int|
                                0 <= k < j - 1 && #[trigger] cand@[k] == n && in_bounds(
                                    n,
                                    self.spec_size(),
                                ) && !self@.dom().contains(n);
                            assert(cand@[k] == cand@[j - 1]);
                        }
                    }
                    assert forall|a: int, b: int| 0 <= a < b < r@.len() implies r@[a] != r@[b] by {
                        if b == r@.len() - 1 {
                            assert(r@[a] == r0[a]);
                            assert(r0.contains(r0[a]));
                        } else {
                            assert(r@[a] == r0[a] && r@[b] == r0[b]);
                        }
                    }
                }
                assert forall|x: Location| #[trigger] r@.contains(x) implies exists|k: int|
                    0 <= k < j && #[trigger] cand@[k] == x && in_bounds(x, self.spec_size())
                        && !self@.dom().contains(x) by {
                    let idx = choose|idx: int| 0 <= idx < r@.len() && r@[idx] == x;
                    if idx < r0.len() {
                        assert(r0[idx] == x);
                        assert(r0.contains(x));
                        let k = choose|k: int|
                            0 <= k < j - 1 && #[trigger] cand@[k] == x && in_bounds(
                                x,
                                self.spec_size(),
                            ) && !self@.dom().contains(x);
                        assert(0 <= k < j && cand@[k] == x && in_bounds(x, self.spec_size())
                            && !self@.dom().contains(x));
                    } else {
                        assert(x == n);
                        assert(cand@[j - 1] == x && in_bounds(x, self.spec_size())
                            && !self@.dom().contains(x));
                    }
                }
                assert forall|x: Location, k: int|
                    0 <= k < j && #[trigger] cand@[k] == x && in_bounds(x, self.spec_size())
                        && !self@.dom().contains(x) implies #[trigger] r@.contains(x) by {
                    if k < j - 1 {
                        assert(r0.contains(x));
                        let ri = choose|ri: int| 0 <= ri < r0.len() && r0[ri] == x;
                        assert(r@[ri] == x);
                    } else {
                        assert(x == n);
                        assert(r@.last() == n);
                    }
                }
            }
        }
        proof {
            assert forall|n: Location| #[trigger] r@.to_set().contains(n) implies lib_set(
                self@,
                self.spec_size(),
                group.members(),
            ).contains(n) by {
                let k = choose|k: int|
                    0 <= k < cand@.len() && #[trigger] cand@[k] == n && in_bounds(
                        n,
                        self.spec_size(),
                    ) && !self@.dom().contains(n);
                assert(cand@.to_set().contains(n));
            }
            assert forall|n: Location|
                lib_set(self@, self.spec_size(), group.members()).contains(n) implies
                #[trigger] r@.to_set().contains(n) by {
                assert(cand@.to_set().contains(n));
                let k = choose|k: int| 0 <= k < cand@.len() && cand@[k] == n;
                assert(cand@[k] == n && in_bounds(n, self.spec_size()) && !self@.dom().contains(
                    n,
                ));
            }
            assert(r@.to_set() =~= lib_set(self@, self.spec_size(), group.members()));
        }
        r
    }
}

} // verus!
