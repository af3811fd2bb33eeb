//! Maximal connected same-coloured sets of stones, and the flood-fill
//! partition of an occupancy map into them.

use vstd::prelude::*;

use crate::location::{adjacent, Location};
use crate::stone::Stone;

verus! {

/// `p` is a walk through `occ` of stones of colour `c`: non-empty, every
/// step on an occupied point of that colour, consecutive points adjacent.
pub open spec fn is_path(occ: Map<Location, Stone>, c: Stone, p: Seq<Location>) -> bool {
    &&& p.len() > 0
    &&& forall|i: int| 0 <= i < p.len() ==> occ.dom().contains(#[trigger] p[i]) && occ[p[i]] == c
    &&& forall|i: int| 0 <= i < p.len() - 1 ==> adjacent(#[trigger] p[i], p[i + 1])
}

/// Stones `a` and `b` hang together through stones of colour `c`.
pub open spec fn connected(occ: Map<Location, Stone>, c: Stone, a: Location, b: Location) -> bool {
    exists|p: Seq<Location>| is_path(occ, c, p) && p.first() == a && p.last() == b
}

/// The maximal connected same-coloured set of stones around the stone at
/// `seed`: the group it belongs to, as a set of locations.
pub open spec fn component(occ: Map<Location, Stone>, seed: Location) -> Set<Location> {
    Set::new(|m: Location| connected(occ, occ[seed], seed, m))
}

pub proof fn lemma_connected_refl(occ: Map<Location, Stone>, c: Stone, a: Location)
    requires
        occ.dom().contains(a),
        occ[a] == c,
    ensures
        connected(occ, c, a, a),
{
    let p = seq![a];
    assert(is_path(occ, c, p) && p.first() == a && p.last() == a);
}

pub proof fn lemma_connected_step(occ: Map<Location, Stone>, c: Stone, a: Location, b: Location)
    requires
        occ.dom().contains(a),
        occ[a] == c,
        occ.dom().contains(b),
        occ[b] == c,
        adjacent(a, b),
    ensures
        connected(occ, c, a, b),
{
    let p = seq![a, b];
    assert(is_path(occ, c, p) && p.first() == a && p.last() == b);
}

pub proof fn lemma_connected_trans(
    occ: Map<Location, Stone>,
    c: Stone,
    a: Location,
    b: Location,
    d: Location,
)
    requires
        connected(occ, c, a, b),
        connected(occ, c, b, d),
    ensures
        connected(occ, c, a, d),
{
    let p1 = choose|p: Seq<Location>| is_path(occ, c, p) && p.first() == a && p.last() == b;
    let p2 = choose|p: Seq<Location>| is_path(occ, c, p) && p.first() == b && p.last() == d;
    let p = p1 + p2.drop_first();
    assert forall|i: int| 0 <= i < p.len() - 1 implies adjacent(#[trigger] p[i], p[i + 1]) by {
        if i < p1.len() - 1 {
            assert(p[i] == p1[i] && p[i + 1] == p1[i + 1]);
        } else if i == p1.len() - 1 {
            assert(p[i] == b && p[i + 1] == p2[1]);
            assert(adjacent(p2[0], p2[1]));
        } else {
            let j = i - p1.len();
            assert(p[i] == p2[j + 1] && p[i + 1] == p2[j + 2]);
            assert(adjacent(p2[j + 1], p2[j + 2]));
        }
    }
    assert(is_path(occ, c, p) && p.first() == a && p.last() == d);
}

/// A walk can be followed backwards.
proof fn lemma_path_sym(occ: Map<Location, Stone>, c: Stone, p: Seq<Location>)
    requires
        is_path(occ, c, p),
    ensures
        connected(occ, c, p.last(), p.first()),
    decreases p.len(),
{
    if p.len() == 1 {
        lemma_connected_refl(occ, c, p.first());
    } else {
        let rest = p.drop_first();
        assert(is_path(occ, c, rest));
        lemma_path_sym(occ, c, rest);
        assert(adjacent(p[0], p[1]));
        lemma_connected_step(occ, c, rest.first(), p.first());
        lemma_connected_trans(occ, c, p.last(), rest.first(), p.first());
    }
}

pub proof fn lemma_connected_sym(occ: Map<Location, Stone>, c: Stone, a: Location, b: Location)
    requires
        connected(occ, c, a, b),
    ensures
        connected(occ, c, b, a),
{
    let p = choose|p: Seq<Location>| is_path(occ, c, p) && p.first() == a && p.last() == b;
    lemma_path_sym(occ, c, p);
}

/// Both ends of a connection are stones of the colour walked through.
pub proof fn lemma_connected_ends(occ: Map<Location, Stone>, c: Stone, a: Location, b: Location)
    requires
        connected(occ, c, a, b),
    ensures
        occ.dom().contains(a) && occ[a] == c,
        occ.dom().contains(b) && occ[b] == c,
{
    let p = choose|p: Seq<Location>| is_path(occ, c, p) && p.first() == a && p.last() == b;
    assert(occ.dom().contains(p[0]) && occ[p[0]] == c);
    assert(occ.dom().contains(p[p.len() - 1]) && occ[p[p.len() - 1]] == c);
}

/// A group is the same seen from any of its members.
pub proof fn lemma_component_member(occ: Map<Location, Stone>, seed: Location, m: Location)
    requires
        occ.dom().contains(seed),
        component(occ, seed).contains(m),
    ensures
        occ.dom().contains(m),
        occ[m] == occ[seed],
        component(occ, m) == component(occ, seed),
{
    let c = occ[seed];
    lemma_connected_ends(occ, c, seed, m);
    assert forall|x: Location| component(occ, seed).contains(x) implies component(
        occ,
        m,
    ).contains(x) by {
        lemma_connected_sym(occ, c, seed, m);
        lemma_connected_trans(occ, c, m, seed, x);
    }
    assert forall|x: Location| component(occ, m).contains(x) implies component(
        occ,
        seed,
    ).contains(x) by {
        lemma_connected_trans(occ, c, seed, m, x);
    }
    assert(component(occ, m) =~= component(occ, seed));
}

/// A set that contains one end of a walk and is closed under same-coloured
/// adjacency contains the other end too.
proof fn lemma_path_stays(occ: Map<Location, Stone>, c: Stone, s: Set<Location>, p: Seq<Location>)
    requires
        is_path(occ, c, p),
        s.contains(p.first()),
        forall|m: Location, n: Location|
            s.contains(m) && occ.dom().contains(n) && occ[n] == c && adjacent(m, n)
                ==> s.contains(n),
    ensures
        s.contains(p.last()),
    decreases p.len(),
{
    if p.len() > 1 {
        let rest = p.drop_first();
        assert(is_path(occ, c, rest));
        assert(adjacent(p[0], p[1]));
        assert(occ.dom().contains(p[1]) && occ[p[1]] == c);
        assert(s.contains(rest.first()));
        lemma_path_stays(occ, c, s, rest);
    }
}

/// A set of stones of colour `c` that contains `seed`, hangs together, and is
/// closed under same-coloured adjacency is exactly the group of `seed`.
pub proof fn lemma_component_characterisation(
    occ: Map<Location, Stone>,
    seed: Location,
    s: Set<Location>,
)
    requires
        occ.dom().contains(seed),
        s.contains(seed),
        forall|m: Location| s.contains(m) ==> connected(occ, occ[seed], seed, m),
        forall|m: Location, n: Location|
            s.contains(m) && occ.dom().contains(n) && occ[n] == occ[seed] && adjacent(m, n)
                ==> s.contains(n),
    ensures
        s == component(occ, seed),
{
    let c = occ[seed];
    assert forall|m: Location| component(occ, seed).contains(m) implies s.contains(m) by {
        let p = choose|p: Seq<Location>| is_path(occ, c, p) && p.first() == seed && p.last() == m;
        lemma_path_stays(occ, c, s, p);
    }
    assert(s =~= component(occ, seed));
}

/// Connectivity through colour `c` only looks at the stones of colour `c`:
/// two occupancy maps with the same stones of that colour agree on it.
pub proof fn lemma_connected_agree(
    m1: Map<Location, Stone>,
    m2: Map<Location, Stone>,
    c: Stone,
    a: Location,
    b: Location,
)
    requires
        forall|l: Location|
            (m1.dom().contains(l) && m1[l] == c) <==> (#[trigger] m2.dom().contains(l) && m2[l]
                == c),
    ensures
        connected(m1, c, a, b) == connected(m2, c, a, b),
{
    if connected(m1, c, a, b) {
        let p = choose|p: Seq<Location>| is_path(m1, c, p) && p.first() == a && p.last() == b;
        assert forall|i: int| 0 <= i < p.len() implies m2.dom().contains(#[trigger] p[i])
            && m2[p[i]] == c by {
            assert(m1.dom().contains(p[i]) && m1[p[i]] == c);
        }
        assert(is_path(m2, c, p));
    }
    if connected(m2, c, a, b) {
        let p = choose|p: Seq<Location>| is_path(m2, c, p) && p.first() == a && p.last() == b;
        assert forall|i: int| 0 <= i < p.len() implies m1.dom().contains(#[trigger] p[i])
            && m1[p[i]] == c by {
            assert(m2.dom().contains(p[i]) && m2[p[i]] == c);
        }
        assert(is_path(m1, c, p));
    }
}

/// Every point of a walk is connected to its start.
proof fn lemma_path_prefix(occ: Map<Location, Stone>, c: Stone, p: Seq<Location>, i: int)
    requires
        is_path(occ, c, p),
        0 <= i < p.len(),
    ensures
        connected(occ, c, p.first(), p[i]),
{
    let q = p.subrange(0, i + 1);
    assert(is_path(occ, c, q) && q.first() == p.first() && q.last() == p[i]);
}

/// Removing a whole group does not disturb how the remaining stones hang
/// together.
pub proof fn lemma_remove_component_connected(
    occ: Map<Location, Stone>,
    seed: Location,
    c: Stone,
    a: Location,
    b: Location,
)
    requires
        occ.dom().contains(seed),
        !component(occ, seed).contains(a),
    ensures
        connected(occ.remove_keys(component(occ, seed)), c, a, b) == connected(occ, c, a, b),
{
    let g = component(occ, seed);
    let occ2 = occ.remove_keys(g);
    if connected(occ2, c, a, b) {
        let p = choose|p: Seq<Location>| is_path(occ2, c, p) && p.first() == a && p.last() == b;
        assert forall|i: int| 0 <= i < p.len() implies occ.dom().contains(#[trigger] p[i])
            && occ[p[i]] == c by {
            assert(occ2.dom().contains(p[i]) && occ2[p[i]] == c);
        }
        assert(is_path(occ, c, p));
    }
    if connected(occ, c, a, b) {
        let p = choose|p: Seq<Location>| is_path(occ, c, p) && p.first() == a && p.last() == b;
        if c == occ[seed] {
            assert forall|i: int| 0 <= i < p.len() implies !g.contains(#[trigger] p[i]) by {
                if g.contains(p[i]) {
                    lemma_path_prefix(occ, c, p, i);
                    assert(connected(occ, c, seed, p[i]));
                    lemma_connected_sym(occ, c, a, p[i]);
                    lemma_connected_trans(occ, c, seed, p[i], a);
                    assert(g.contains(a));
                }
            }
            assert(is_path(occ2, c, p));
        } else {
            assert forall|i: int| 0 <= i < p.len() implies occ2.dom().contains(#[trigger] p[i])
                && occ2[p[i]] == c by {
                assert(occ.dom().contains(p[i]) && occ[p[i]] == c);
                if g.contains(p[i]) {
                    lemma_connected_ends(occ, occ[seed], seed, p[i]);
                }
            }
            assert(is_path(occ2, c, p));
        }
    }
}

/// The candidate liberty/border set of a set of stones: every location
/// adjacent to a member without being one.  Not yet filtered against any
/// board: candidates past a board's far edge, or occupied, are still here.
pub open spec fn border(members: Set<Location>) -> Set<Location> {
    Set::new(
        |n: Location|
            !members.contains(n) && exists|m: Location| members.contains(m) && adjacent(m, n),
    )
}

/// A maximal, connected, single-coloured set of stone locations, as produced
/// by the flood-fill engine.
#[derive(Debug, Clone)]
pub struct Group {
    colour: Stone,
    group: Vec<Location>,
}

impl Group {
    /// The member locations, as a set.
    pub closed spec fn members(&self) -> Set<Location> {
        self.group@.to_set()
    }

    pub closed spec fn colour_of(&self) -> Stone {
        self.colour
    }

    /// Members listed once each, and at least one of them.
    pub closed spec fn wf(&self) -> bool {
        self.group@.no_duplicates() && self.group@.len() > 0
    }

    /// Every member coordinate is below the numeric limit, so neighbour
    /// candidates can be generated.  Groups read off a board always satisfy
    /// this, since their stones lie within the board.
    pub open spec fn coords_ok(&self) -> bool {
        forall|m: Location|
            #[trigger] self.members().contains(m) ==> m.col < usize::MAX && m.row < usize::MAX
    }

    /// A fresh one-stone group.
    pub fn new(stone: Stone, loc: Location) -> (r: Group)
        ensures
            r.wf(),
            r.colour_of() == stone,
            r.members() == Set::empty().insert(loc),
    {
        let mut v: Vec<Location> = Vec::new();
        v.push(loc);
        let g = Group { colour: stone, group: v };
        proof {
            assert(g.group@[0] == loc);
            assert(g.members() =~= Set::empty().insert(loc));
        }
        g
    }

    pub fn colour(&self) -> (r: Stone)
        ensures
            r == self.colour_of(),
    {
        self.colour
    }

    /// The member locations, one copy of each.
    pub fn locations(&self) -> (r: Vec<Location>)
        requires
            self.wf(),
        ensures
            r@.to_set() == self.members(),
            r@.no_duplicates(),
            r@.len() > 0,
    {
        let mut r: Vec<Location> = Vec::new();
        let mut i: usize = 0;
        while i < self.group.len()
            invariant
                0 <= i <= self.group@.len(),
                r@ == self.group@.subrange(0, i as int),
            decreases self.group@.len() - i,
        {
            r.push(self.group[i]);
            i = i + 1;
        }
        proof {
            assert(r@ =~= self.group@);
        }
        r
    }

    /// Is `loc` a member?
    pub fn contains(&self, loc: Location) -> (r: bool)
        ensures
            r == self.members().contains(loc),
    {
        vec_has(&self.group, loc)
    }

    /// Is `loc` a member of this group, seen as a group of colour `stone`?
    pub fn has(&self, stone: Stone, loc: Location) -> (r: bool)
        ensures
            r == (self.colour_of() == stone && self.members().contains(loc)),
    {
        self.colour == stone && vec_has(&self.group, loc)
    }

    /// The candidate liberty/border set: locations adjacent to a member,
    /// members themselves excluded, the far board edge not yet enforced.
    pub fn neighbours(&self) -> (r: Vec<Location>)
        requires
            self.wf(),
            self.coords_ok(),
        ensures
            r@.to_set() == border(self.members()),
            r@.no_duplicates(),
    {
        let mut r: Vec<Location> = Vec::new();
        let mut i: usize = 0;
        while i < self.group.len()
            invariant
                0 <= i <= self.group@.len(),
                self.wf(),
                self.coords_ok(),
                r@.no_duplicates(),
                forall|n: Location|
                    #[trigger] r@.contains(n) <==> (!self.members().contains(n) && exists|k: int|
                        0 <= k < i && adjacent(#[trigger] self.group@[k], n)),
            decreases self.group@.len() - i,
        {
            let ghost i0 = i as int;
            let m = self.group[i];
            proof {
                assert(self.members().contains(m));
            }
            let cand = m.neighbours();
            let mut j: usize = 0;
            while j < cand.len()
                invariant
                    0 <= j <= cand@.len(),
                    0 <= i0 < self.group@.len(),
                    m == self.group@[i0],
                    self.wf(),
                    self.coords_ok(),
                    cand@.to_set() =~= Set::new(|n: Location| adjacent(m, n)),
                    cand@.no_duplicates(),
                    r@.no_duplicates(),
                    forall|n: Location|
                        #[trigger] r@.contains(n) <==> (!self.members().contains(n) && ((exists|
                            k: int,
                        |
                            0 <= k < i0 && adjacent(#[trigger] self.group@[k], n)) || (exists|
                            jj: int,
                        |
                            0 <= jj < j && #[trigger] cand@[jj] == n))),
                decreases cand@.len() - j,
            {
                let ghost r0 = r@;
                let ghost j0 = j as int;
                let n = cand[j];
                if !vec_has(&self.group, n) && !vec_has(&r, n) {
                    r.push(n);
                }
                j = j + 1;
                proof {
                    assert forall|x: Location| #[trigger] r@.contains(x) implies (
                    !self.members().contains(x) && ((exists|k: int|
                        0 <= k < i0 && adjacent(#[trigger] self.group@[k], x)) || (exists|jj: int|
                        0 <= jj < j0 + 1 && #[trigger] cand@[jj] == x))) by {
                        if r0.contains(x) {
                        } else {
                            assert(x == n);
                            assert(cand@[j0] == x);
                        }
                    }
                    assert forall|x: Location|
                        (!self.members().contains(x) && ((exists|k: int|
                            0 <= k < i0 && adjacent(#[trigger] self.group@[k], x)) || (exists|
                            jj: int,
                        |
                            0 <= jj < j0 + 1 && #[trigger] cand@[jj] == x))) implies
                        #[trigger] r@.contains(x) by {
                        if exists|jj: int| 0 <= jj < j0 + 1 && #[trigger] cand@[jj] == x {
                            let jj = choose|jj: int| 0 <= jj < j0 + 1 && #[trigger] cand@[jj] == x;
                            if jj == j0 {
                                assert(x == n);
                                if !r0.contains(n) {
                                    assert(r@.last() == n);
                                }
                            } else {
                                assert(r0.contains(x));
                            }
                        } else {
                            assert(r0.contains(x));
                        }
                        if r0.contains(x) {
                            let ri = choose|ri: int| 0 <= ri < r0.len() && r0[ri] == x;
                            assert(r@[ri] == x);
                        }
                    }
                }
            }
            i = i + 1;
            proof {
                assert forall|n: Location| #[trigger] r@.contains(n) implies (
                !self.members().contains(n) && exists|k: int|
                    0 <= k < i && adjacent(#[trigger] self.group@[k], n)) by {
                    if exists|jj: int| 0 <= jj < cand@.len() && #[trigger] cand@[jj] == n {
                        let jj = choose|jj: int| 0 <= jj < cand@.len() && #[trigger] cand@[jj] == n;
                        assert(cand@.to_set().contains(n));
                        assert(adjacent(self.group@[i0], n));
                    }
                }
                assert forall|n: Location|
                    (!self.members().contains(n) && exists|k: int|
                        0 <= k < i && adjacent(#[trigger] self.group@[k], n)) implies
                    #[trigger] r@.contains(n) by {
                    let k = choose|k: int| 0 <= k < i && adjacent(#[trigger] self.group@[k], n);
                    if k == i0 {
                        assert(Set::new(|x: Location| adjacent(m, x)).contains(n));
                        assert(cand@.to_set().contains(n));
                        let jj = choose|jj: int| 0 <= jj < cand@.len() && cand@[jj] == n;
                        assert(cand@[jj] == n);
                    }
                }
            }
        }
        proof {
            assert forall|n: Location| #[trigger] r@.to_set().contains(n) implies border(
                self.members(),
            ).contains(n) by {
                let k = choose|k: int| 0 <= k < self.group@.len() && adjacent(self.group@[k], n);
                assert(self.members().contains(self.group@[k]));
            }
            assert forall|n: Location| border(self.members()).contains(n) implies
                #[trigger] r@.to_set().contains(n) by {
                let m = choose|m: Location| self.members().contains(m) && adjacent(m, n);
                let k = choose|k: int| 0 <= k < self.group@.len() && self.group@[k] == m;
                assert(adjacent(self.group@[k], n));
            }
            assert(r@.to_set() =~= border(self.members()));
        }
        r
    }

    /// Is `loc` (of colour `stone`) next to this group without being in it?
    pub fn adjacent(&self, stone: Stone, loc: Location) -> (r: bool)
        requires
            loc.col < usize::MAX,
            loc.row < usize::MAX,
        ensures
            r == (self.colour_of() == stone && !self.members().contains(loc) && exists|m: Location|
                self.members().contains(m) && adjacent(m, loc)),
    {
        if !(self.colour == stone) {
            return false;
        }
        if vec_has(&self.group, loc) {
            return false;
        }
        let cand = loc.neighbours();
        let mut j: usize = 0;
        while j < cand.len()
            invariant
                0 <= j <= cand@.len(),
                self.colour_of() == stone,
                !self.members().contains(loc),
                forall|k: int| 0 <= k < j ==> !self.members().contains(#[trigger] cand@[k]),
                cand@.to_set() =~= Set::new(|n: Location| adjacent(loc, n)),
            decreases cand@.len() - j,
        {
            if vec_has(&self.group, cand[j]) {
                proof {
                    let mm = cand@[j as int];
                    assert(cand@.to_set().contains(mm));
                    assert(Set::new(|n: Location| adjacent(loc, n)).contains(mm));
                    assert(self.members().contains(mm));
                    assert(adjacent(mm, loc));
                    assert(self.colour_of() == stone);
                    assert(!self.members().contains(loc));
                    assert(exists|m: Location| self.members().contains(m) && adjacent(m, loc));
                }
                return true;
            }
            j = j + 1;
        }
        proof {
            assert forall|m: Location| self.members().contains(m) implies !adjacent(m, loc) by {
                if adjacent(m, loc) {
                    assert(adjacent(loc, m));
                    assert(Set::new(|n: Location| adjacent(loc, n)).contains(m));
                    assert(cand@.to_set().contains(m));
                    let k = choose|k: int| 0 <= k < cand@.len() && cand@[k] == m;
                    assert(!self.members().contains(cand@[k]));
                }
            }
        }
        false
    }

    /// Are this group and `other` (which must not share members) of one
    /// colour and adjacent — does a member of `other` lie on this group's
    /// border, so that merging them would be possible?
    pub fn groupadjacent(&self, other: &Group) -> (r: bool)
        requires
            self.members().disjoint(other.members()),
            other.coords_ok(),
        ensures
            r == (self.colour_of() == other.colour_of() && exists|l: Location|
                other.members().contains(l) && border(self.members()).contains(l)),
    {
        if !(self.colour == other.colour) {
            return false;
        }
        let mut i: usize = 0;
        while i < other.group.len()
            invariant
                0 <= i <= other.group@.len(),
                self.members().disjoint(other.members()),
                other.coords_ok(),
                self.colour_of() == other.colour_of(),
                forall|k: int|
                    0 <= k < i ==> !border(self.members()).contains(#[trigger] other.group@[k]),
            decreases other.group@.len() - i,
        {
            let l = other.group[i];
            proof {
                assert(other.members().contains(l));
            }
            if self.adjacent(other.colour, l) {
                proof {
                    assert(border(self.members()).contains(l));
                }
                return true;
            }
            i = i + 1;
        }
        proof {
            assert forall|l: Location|
                other.members().contains(l) implies !border(self.members()).contains(l) by {
                let k = choose|k: int| 0 <= k < other.group@.len() && other.group@[k] == l;
            }
        }
        false
    }

    /// Decompose an occupancy into its maximal connected same-coloured
    /// groups: every stone lies in exactly one returned group, each group is
    /// exactly the connected component of each of its members, and distinct
    /// groups share no member.  The order of the groups is unspecified.
    pub fn groups(points: Vec<(Location, Stone)>) -> (r: Vec<Group>)
        requires
            firsts_distinct(points@),
            forall|i: int|
                0 <= i < points@.len() ==> (#[trigger] points@[i]).0.col < usize::MAX
                    && points@[i].0.row < usize::MAX,
        ensures
            forall|i: int|
                0 <= i < r@.len() ==> (#[trigger] r@[i]).wf() && r@[i].coords_ok(),
            forall|i: int, l: Location|
                0 <= i < r@.len() && (#[trigger] r@[i].members().contains(l)) ==> pairs_map(
                    points@,
                ).dom().contains(l) && pairs_map(points@)[l] == r@[i].colour_of()
                    && r@[i].members() == component(pairs_map(points@), l),
            forall|l: Location|
                #[trigger] pairs_map(points@).dom().contains(l) ==> exists|i: int|
                    0 <= i < r@.len() && r@[i].members().contains(l),
            forall|i: int, j: int|
                0 <= i < j < r@.len() ==> r@[i].members().disjoint(r@[j].members()),
    {
        let ghost m0 = pairs_map(points@);
        proof {
            lemma_pairs_map_dom(points@);
            assert forall|l: Location| m0.dom().contains(l) implies l.col < usize::MAX && l.row
                < usize::MAX by {
                let i = choose|i: int| 0 <= i < points@.len() && (#[trigger] points@[i]).0 == l;
            }
        }
        let mut it = GroupIterator::new(points);
        let mut r: Vec<Group> = Vec::new();
        let mut finished = false;
        while !finished
            invariant
                it.wf(),
                m0.dom().finite(),
                forall|l: Location|
                    #[trigger] m0.dom().contains(l) ==> l.col < usize::MAX && l.row < usize::MAX,
                forall|a: Location|
                    #[trigger] it@.dom().contains(a) ==> m0.dom().contains(a) && m0[a] == it@[a]
                        && component(m0, a) == component(it@, a),
                forall|i: int|
                    0 <= i < r@.len() ==> (#[trigger] r@[i]).wf() && r@[i].coords_ok(),
                forall|i: int, l: Location|
                    0 <= i < r@.len() && (#[trigger] r@[i].members().contains(l)) ==> m0.dom().contains(
                        l,
                    ) && m0[l] == r@[i].colour_of() && r@[i].members() == component(m0, l),
                forall|i: int, l: Location|
                    0 <= i < r@.len() && (#[trigger] r@[i].members().contains(l))
                        ==> !it@.dom().contains(l),
                forall|l: Location|
                    #[trigger] m0.dom().contains(l) ==> it@.dom().contains(l) || exists|i: int|
                        0 <= i < r@.len() && r@[i].members().contains(l),
                forall|i: int, j: int|
                    0 <= i < j < r@.len() ==> r@[i].members().disjoint(r@[j].members()),
                finished ==> it@ == Map::<Location, Stone>::empty(),
            decreases (if finished {
                0int
            } else {
                1int
            }), it@.dom().len(),
        {
            let ghost it_pre = it@;
            let ghost it_snap = it;
            let ghost r_pre = r@;
            let next_group = it.next();
            match next_group {
                None => {
                    finished = true;
                },
                Some(g) => {
                    let ghost seed = it_snap.first_stone();
                    proof {
                        assert(it_pre != Map::<Location, Stone>::empty());
                        lemma_group_step(m0, it_pre, it@, g, seed);
                    }
                    r.push(g);
                    proof {
                        let last = r@.len() - 1;
                        assert(r@[last] == g);
                        assert forall|i: int, l: Location|
                            0 <= i < r@.len() && (#[trigger] r@[i].members().contains(l)) implies
                            m0.dom().contains(l) && m0[l] == r@[i].colour_of() && r@[i].members()
                            == component(m0, l) by {
                            if i < last {
                                assert(r_pre[i].members().contains(l));
                            }
                        }
                        assert forall|i: int, l: Location|
                            0 <= i < r@.len() && (#[trigger] r@[i].members().contains(l)) implies
                            !it@.dom().contains(l) by {
                            if i < last {
                                assert(r_pre[i].members().contains(l));
                                assert(!it_pre.dom().contains(l));
                            }
                        }
                        assert forall|l: Location| #[trigger] m0.dom().contains(l) implies
                            it@.dom().contains(l) || exists|i: int|
                            0 <= i < r@.len() && r@[i].members().contains(l) by {
                            if it_pre.dom().contains(l) && !it@.dom().contains(l) {
                                assert(g.members().contains(l));
                                assert(r@[last].members().contains(l));
                            } else if !it_pre.dom().contains(l) {
                                let i = choose|i: int|
                                    0 <= i < r_pre.len() && r_pre[i].members().contains(l);
                                assert(r@[i].members().contains(l));
                            }
                        }
                        assert forall|i: int, j: int|
                            0 <= i < j < r@.len() implies r@[i].members().disjoint(
                            r@[j].members()) by {
                            if j < last {
                                assert(r_pre[i].members().disjoint(r_pre[j].members()));
                            } else {
                                assert(r@[i] == r_pre[i]);
                                assert forall|l: Location|
                                    r@[i].members().contains(l) implies !g.members().contains(
                                    l,
                                ) by {
                                    assert(r_pre[i].members().contains(l));
                                    assert(!it_pre.dom().contains(l));
                                }
                                assert(r@[i].members().disjoint(g.members()));
                            }
                        }
                        assert forall|i: int|
                            0 <= i < r@.len() implies (#[trigger] r@[i]).wf()
                            && r@[i].coords_ok() by {
                            if i == last {
                                assert forall|l: Location|
                                    g.members().contains(l) implies l.col < usize::MAX && l.row
                                    < usize::MAX by {
                                    assert(m0.dom().contains(l));
                                }
                            } else {
                                assert(r_pre[i].wf() && r_pre[i].coords_ok());
                            }
                        }
                    }
                },
            }
        }
        r
    }

    /// A well-formed group has at least one member.
    pub proof fn lemma_wf_nonempty(&self)
        requires
            self.wf(),
        ensures
            exists|l: Location| self.members().contains(l),
    {
        assert(self.members().contains(self.group@[0]));
    }

    /// Merge with another group of the same colour; `None` if the colours
    /// differ.
    pub fn merge(&self, other: &Group) -> (r: Option<Group>)
        requires
            self.wf(),
            other.wf(),
        ensures
            self.colour_of() == other.colour_of() ==> r is Some && r.unwrap().wf()
                && r.unwrap().colour_of() == self.colour_of() && r.unwrap().members()
                == self.members().union(other.members()),
            self.colour_of() != other.colour_of() ==> r is None,
    {
        if !(self.colour == other.colour) {
            return None;
        }
        let mut v = self.locations();
        let mut i: usize = 0;
        while i < other.group.len()
            invariant
                0 <= i <= other.group@.len(),
                other.wf(),
                v@.no_duplicates(),
                v@.len() > 0,
                forall|l: Location|
                    #[trigger] v@.contains(l) <==> (self.members().contains(l) || exists|k: int|
                        0 <= k < i && #[trigger] other.group@[k] == l),
            decreases other.group@.len() - i,
        {
            let ghost v0 = v@;
            let ghost i0 = i as int;
            let l = other.group[i];
            if !vec_has(&v, l) {
                v.push(l);
            }
            i = i + 1;
            proof {
                assert forall|x: Location| #[trigger] v@.contains(x) implies (
                self.members().contains(x) || exists|k: int|
                    0 <= k < i0 + 1 && #[trigger] other.group@[k] == x) by {
                    if v0.contains(x) {
                    } else {
                        assert(x == l);
                        assert(other.group@[i0] == x);
                    }
                }
                assert forall|x: Location|
                    (self.members().contains(x) || exists|k: int|
                        0 <= k < i0 + 1 && #[trigger] other.group@[k] == x) implies
                    #[trigger] v@.contains(x) by {
                    if self.members().contains(x) {
                        assert(v0.contains(x));
                    } else {
                        let k = choose|k: int| 0 <= k < i0 + 1 && #[trigger] other.group@[k] == x;
                        if k < i0 {
                            assert(v0.contains(x));
                        } else {
                            assert(x == l);
                            if !v0.contains(l) {
                                assert(v@.last() == l);
                            }
                        }
                    }
                    if v0.contains(x) {
                        let vi = choose|vi: int| 0 <= vi < v0.len() && v0[vi] == x;
                        assert(v@[vi] == x);
                    }
                }
            }
        }
        let g = Group { colour: self.colour, group: v };
        proof {
            assert forall|l: Location| #[trigger] g.members().contains(l) implies
                self.members().union(other.members()).contains(l) by {
                if !self.members().contains(l) {
                    let k = choose|k: int| 0 <= k < other.group@.len() && other.group@[k] == l;
                }
            }
            assert forall|l: Location|
                self.members().union(other.members()).contains(l) implies #[trigger] g.members().contains(
                l,
            ) by {
                if other.members().contains(l) {
                    let k = choose|k: int| 0 <= k < other.group@.len() && other.group@[k] == l;
                }
            }
            assert(g.members() =~= self.members().union(other.members()));
        }
        Some(g)
    }
}

/// The occupancy map described by a sequence of (location, stone) pairs;
/// a later pair for the same location wins.
pub open spec fn pairs_map(s: Seq<(Location, Stone)>) -> Map<Location, Stone>
    decreases s.len(),
{
    if s.len() == 0 {
        Map::empty()
    } else {
        pairs_map(s.drop_last()).insert(s.last().0, s.last().1)
    }
}

/// No two pairs of the sequence name the same location.
pub open spec fn firsts_distinct(s: Seq<(Location, Stone)>) -> bool {
    forall|i: int, j: int| 0 <= i < j < s.len() ==> (#[trigger] s[i]).0 != (#[trigger] s[j]).0
}

pub proof fn lemma_pairs_map_dom(s: Seq<(Location, Stone)>)
    ensures
        forall|l: Location|
            #[trigger] pairs_map(s).dom().contains(l) <==> exists|i: int|
                0 <= i < s.len() && (#[trigger] s[i]).0 == l,
        pairs_map(s).dom().finite(),
        pairs_map(s).dom().len() <= s.len(),
    decreases s.len(),
{
    if s.len() > 0 {
        lemma_pairs_map_dom(s.drop_last());
        assert forall|l: Location| #[trigger] pairs_map(s).dom().contains(l) implies exists|i: int|
            0 <= i < s.len() && (#[trigger] s[i]).0 == l by {
            if l == s.last().0 {
                assert((s[s.len() - 1]).0 == l);
            } else {
                let i = choose|i: int| 0 <= i < s.drop_last().len() && (#[trigger] s.drop_last()[i]).0 == l;
                assert((s[i]).0 == l);
            }
        }
        assert forall|l: Location|
            exists|i: int| 0 <= i < s.len() && (#[trigger] s[i]).0 == l implies #[trigger] pairs_map(
            s,
        ).dom().contains(l) by {
            let i = choose|i: int| 0 <= i < s.len() && (#[trigger] s[i]).0 == l;
            if i < s.len() - 1 {
                assert((s.drop_last()[i]).0 == l);
            }
        }
    }
}

pub proof fn lemma_pairs_map_index(s: Seq<(Location, Stone)>, i: int)
    requires
        firsts_distinct(s),
        0 <= i < s.len(),
    ensures
        pairs_map(s).dom().contains(s[i].0),
        pairs_map(s)[s[i].0] == s[i].1,
    decreases s.len(),
{
    if i == s.len() - 1 {
    } else {
        assert(firsts_distinct(s.drop_last()));
        assert(s.drop_last()[i] == s[i]);
        lemma_pairs_map_index(s.drop_last(), i);
        assert(s[i].0 != s[s.len() - 1].0);
    }
}

fn vec_has(v: &Vec<Location>, l: Location) -> (r: bool)
    ensures
        r == v@.contains(l),
{
    let mut i: usize = 0;
    while i < v.len()
        invariant
            0 <= i <= v@.len(),
            forall|k: int| 0 <= k < i ==> v@[k] != l,
        decreases v@.len() - i,
    {
        if v[i] == l {
            return true;
        }
        i = i + 1;
    }
    false
}

fn pairs_find(v: &Vec<(Location, Stone)>, l: Location) -> (r: Option<Stone>)
    requires
        firsts_distinct(v@),
    ensures
        r == if pairs_map(v@).dom().contains(l) {
            Some(pairs_map(v@)[l])
        } else {
            Option::<Stone>::None
        },
{
    proof {
        lemma_pairs_map_dom(v@);
    }
    let mut i: usize = 0;
    while i < v.len()
        invariant
            0 <= i <= v@.len(),
            firsts_distinct(v@),
            forall|k: int| 0 <= k < i ==> (#[trigger] v@[k]).0 != l,
            forall|ll: Location|
                #[trigger] pairs_map(v@).dom().contains(ll) <==> exists|k: int|
                    0 <= k < v@.len() && (#[trigger] v@[k]).0 == ll,
        decreases v@.len() - i,
    {
        let (pl, ps) = v[i];
        if pl == l {
            proof {
                lemma_pairs_map_index(v@, i as int);
            }
            return Some(ps);
        }
        i = i + 1;
    }
    None
}

/// Group maximality: two different groups of one colour are never adjacent —
/// were they, they would be connected and so one group.  Together with the
/// partition contract of `groups`, every stone lies in exactly one maximal
/// group and no two returned groups could be merged.
pub proof fn lemma_distinct_groups_not_adjacent(
    occ: Map<Location, Stone>,
    a: Location,
    b: Location,
)
    requires
        occ.dom().contains(a),
        occ.dom().contains(b),
        occ[a] == occ[b],
        component(occ, a) != component(occ, b),
    ensures
        component(occ, a).disjoint(component(occ, b)),
        forall|m: Location, n: Location|
            component(occ, a).contains(m) && component(occ, b).contains(n) ==> !adjacent(m, n),
{
    let c = occ[a];
    assert forall|x: Location|
        component(occ, a).contains(x) implies !component(occ, b).contains(x) by {
        if component(occ, b).contains(x) {
            lemma_component_member(occ, a, x);
            lemma_component_member(occ, b, x);
        }
    }
    assert forall|m: Location, n: Location|
        component(occ, a).contains(m) && component(occ, b).contains(n) implies !adjacent(m, n) by {
        if adjacent(m, n) {
            lemma_connected_ends(occ, c, a, m);
            lemma_connected_ends(occ, c, b, n);
            lemma_connected_step(occ, c, m, n);
            lemma_connected_trans(occ, c, a, m, n);
            assert(component(occ, a).contains(n));
        }
    }
}

/// One step of the partition: a group cut out of the working map `pre` is a
/// group of the reference map `m0` too, and the shrunken map still agrees
/// with `m0` about the groups of every stone it keeps.
proof fn lemma_group_step(
    m0: Map<Location, Stone>,
    pre: Map<Location, Stone>,
    post: Map<Location, Stone>,
    g: Group,
    seed: Location,
)
    requires
        forall|a: Location|
            #[trigger] pre.dom().contains(a) ==> m0.dom().contains(a) && m0[a] == pre[a]
                && component(m0, a) == component(pre, a),
        pre.dom().contains(seed),
        g.members() == component(pre, seed),
        g.colour_of() == pre[seed],
        forall|l: Location|
            g.members().contains(l) ==> pre.dom().contains(l) && pre[l] == g.colour_of(),
        post == pre.remove_keys(g.members()),
    ensures
        forall|l: Location|
            #[trigger] g.members().contains(l) ==> m0.dom().contains(l) && m0[l] == g.colour_of()
                && g.members() == component(m0, l),
        forall|a: Location|
            #[trigger] post.dom().contains(a) ==> m0.dom().contains(a) && m0[a] == post[a]
                && component(m0, a) == component(post, a),
        forall|l: Location| g.members().contains(l) ==> !post.dom().contains(l),
{
    assert forall|l: Location| #[trigger] g.members().contains(l) implies m0.dom().contains(l)
        && m0[l] == g.colour_of() && g.members() == component(m0, l) by {
        lemma_component_member(pre, seed, l);
        assert(component(m0, l) == component(pre, l));
    }
    assert forall|a: Location| #[trigger] post.dom().contains(a) implies m0.dom().contains(a)
        && m0[a] == post[a] && component(m0, a) == component(post, a) by {
        assert(pre.dom().contains(a));
        assert(!g.members().contains(a));
        let c = pre[a];
        assert(post[a] == c);
        assert forall|b: Location| true implies connected(post, c, a, b) == connected(
            pre,
            c,
            a,
            b,
        ) by {
            lemma_remove_component_connected(pre, seed, c, a, b);
            assert(pre.remove_keys(component(pre, seed)) == post);
        }
        assert(component(post, a) =~= component(pre, a));
    }
}

/// The pairs of `s` whose location is not in `r`, in order.
pub open spec fn remove_members(s: Seq<(Location, Stone)>, r: Set<Location>) -> Seq<
    (Location, Stone),
>
    decreases s.len(),
{
    if s.len() == 0 {
        s
    } else {
        remove_members(s.drop_last(), r) + (if r.contains(s.last().0) {
            Seq::empty()
        } else {
            seq![s.last()]
        })
    }
}

proof fn lemma_remove_members(s: Seq<(Location, Stone)>, r: Set<Location>)
    requires
        firsts_distinct(s),
    ensures
        firsts_distinct(remove_members(s, r)),
        pairs_map(remove_members(s, r)) == pairs_map(s).remove_keys(r),
        forall|i: int| 0 <= i < remove_members(s, r).len() ==> s.contains(remove_members(s, r)[i]),
    decreases s.len(),
{
    let out = remove_members(s, r);
    if s.len() == 0 {
        assert(pairs_map(out) =~= pairs_map(s).remove_keys(r));
    } else {
        let s0 = s.drop_last();
        let p = s.last();
        assert(firsts_distinct(s0)) by {
            assert forall|i: int, j: int| 0 <= i < j < s0.len() implies (#[trigger] s0[i]).0 != (
            #[trigger] s0[j]).0 by {
                assert(s[i] == s0[i] && s[j] == s0[j]);
            }
        }
        lemma_remove_members(s0, r);
        let out0 = remove_members(s0, r);
        assert forall|i: int| 0 <= i < out.len() implies s.contains(out[i]) by {
            if i < out0.len() {
                assert(out[i] == out0[i]);
                assert(s0.contains(out0[i]));
                let k = choose|k: int| 0 <= k < s0.len() && s0[k] == out0[i];
                assert(s[k] == out[i]);
            } else {
                assert(out[i] == p);
                assert(s[s.len() - 1] == p);
            }
        }
        lemma_pairs_map_dom(s0);
        if r.contains(p.0) {
            assert(out == out0);
            assert(pairs_map(s).remove_keys(r) =~= pairs_map(s0).remove_keys(r));
        } else {
            assert(out.drop_last() =~= out0);
            assert(out.last() == p);
            assert(pairs_map(out) == pairs_map(out0).insert(p.0, p.1));
            assert(pairs_map(s).remove_keys(r) =~= pairs_map(s0).remove_keys(r).insert(p.0, p.1));
            assert(firsts_distinct(out)) by {
                assert forall|i: int, j: int| 0 <= i < j < out.len() implies (#[trigger] out[i]).0
                    != (#[trigger] out[j]).0 by {
                    if j < out0.len() {
                        assert(out[i] == out0[i] && out[j] == out0[j]);
                    } else {
                        assert(out[j] == p);
                        assert(out[i] == out0[i]);
                        assert(s0.contains(out0[i]));
                        let k = choose|k: int| 0 <= k < s0.len() && s0[k] == out0[i];
                        assert(s[k] == out0[i] && s[s.len() - 1] == p);
                    }
                }
            }
        }
    }
}

/// The flood-fill engine: holds the not-yet-assigned stones of an occupancy
/// map and hands out one maximal connected same-coloured group at a time,
/// consuming its working set.  One-shot and unordered.
pub struct GroupIterator {
    stones: Vec<(Location, Stone)>,
}

impl View for GroupIterator {
    type V = Map<Location, Stone>;

    closed spec fn view(&self) -> Map<Location, Stone> {
        pairs_map(self.stones@)
    }
}

impl GroupIterator {
    pub closed spec fn wf(&self) -> bool {
        &&& firsts_distinct(self.stones@)
        &&& forall|i: int|
            0 <= i < self.stones@.len() ==> (#[trigger] self.stones@[i]).0.col < usize::MAX
                && self.stones@[i].0.row < usize::MAX
    }

    /// The stone the next group will grow from, while any stones remain.
    pub closed spec fn first_stone(&self) -> Location {
        self.stones@[0].0
    }

    /// Yield one maximal connected same-coloured group, grown from the first
    /// remaining stone, and drop its members from the working set; `None`
    /// once no stones remain.
    pub fn next(&mut self) -> (r: Option<Group>)
        requires
            old(self).wf(),
        ensures
            final(self).wf(),
            old(self)@ == Map::<Location, Stone>::empty() ==> r is None && final(self)@ == old(
                self,
            )@,
            old(self)@ != Map::<Location, Stone>::empty() ==> (match r {
                Some(g) => {
                    &&& g.wf()
                    &&& old(self)@.dom().contains(old(self).first_stone())
                    &&& g.colour_of() == old(self)@[old(self).first_stone()]
                    &&& g.members() == component(old(self)@, old(self).first_stone())
                    &&& forall|l: Location|
                        g.members().contains(l) ==> old(self)@.dom().contains(l) && old(self)@[l]
                            == g.colour_of()
                    &&& final(self)@ == old(self)@.remove_keys(g.members())
                    &&& final(self)@.dom().len() < old(self)@.dom().len()
                },
                None => false,
            }),
            old(self)@.dom().finite(),
    {
        proof {
            lemma_pairs_map_dom(self.stones@);
        }
        if self.stones.len() == 0 {
            return None;
        }
        let ghost m_map = self@;
        let (seed, colour) = self.stones[0];
        proof {
            lemma_pairs_map_index(self.stones@, 0);
            lemma_connected_refl(m_map, colour, seed);
        }
        let mut members: Vec<Location> = Vec::new();
        members.push(seed);
        let mut queue: Vec<Location> = Vec::new();
        queue.push(seed);
        proof {
            assert(members@[0] == seed && queue@[0] == seed);
            assert(members@.to_set() =~= Set::empty().insert(seed));
            vstd::set_lib::lemma_len_subset(members@.to_set(), m_map.dom());
        }
        while queue.len() > 0
            invariant
                self.wf(),
                self@ == m_map,
                m_map.dom().finite(),
                m_map.dom().contains(seed),
                m_map[seed] == colour,
                members@.no_duplicates(),
                queue@.no_duplicates(),
                members@.contains(seed),
                members@.len() <= m_map.dom().len(),
                forall|k: int| 0 <= k < queue@.len() ==> members@.contains(#[trigger] queue@[k]),
                forall|k: int|
                    0 <= k < members@.len() ==> m_map.dom().contains(#[trigger] members@[k])
                        && m_map[members@[k]] == colour && connected(
                        m_map,
                        colour,
                        seed,
                        members@[k],
                    ),
                forall|x: Location, n: Location|
                    members@.contains(x) && !queue@.contains(x) && m_map.dom().contains(n)
                        && m_map[n] == colour && adjacent(x, n) ==> members@.contains(n),
            decreases m_map.dom().len() - members@.len(), queue@.len(),
        {
            let ghost members0 = members@;
            let ghost queue0 = queue@;
            let m = queue.pop().unwrap();
            proof {
                assert(queue0.contains(queue0.last()));
                assert(members@.contains(m));
                let mi = choose|mi: int| 0 <= mi < members@.len() && members@[mi] == m;
                assert(m_map.dom().contains(members@[mi]));
                lemma_pairs_map_dom(self.stones@);
                let si = choose|si: int|
                    0 <= si < self.stones@.len() && (#[trigger] self.stones@[si]).0 == m;
                assert(self.stones@[si].0.col < usize::MAX && self.stones@[si].0.row < usize::MAX);
                // a member out of the shortened queue was out of the queue before,
                // unless it is `m` itself
                assert forall|x: Location, n: Location|
                    members@.contains(x) && !queue@.contains(x) && x != m && m_map.dom().contains(n)
                        && m_map[n] == colour && adjacent(x, n) implies members@.contains(n) by {
                    if queue0.contains(x) {
                        let k = choose|k: int| 0 <= k < queue0.len() && queue0[k] == x;
                        if k < queue0.len() - 1 {
                            assert(queue@[k] == x);
                        }
                        assert(false);
                    }
                }
            }
            let cand = m.neighbours();
            let mut j: usize = 0;
            while j < cand.len()
                invariant
                    self.wf(),
                    self@ == m_map,
                    m_map.dom().finite(),
                    m_map.dom().contains(seed),
                    m_map[seed] == colour,
                    0 <= j <= cand@.len(),
                    cand@.to_set() =~= Set::new(|n: Location| adjacent(m, n)),
                    members@.no_duplicates(),
                    queue@.no_duplicates(),
                    members@.contains(seed),
                    members@.contains(m),
                    members@.len() <= m_map.dom().len(),
                    members0.len() <= members@.len(),
                    queue@.len() == queue0.len() - 1 + (members@.len() - members0.len()),
                    forall|k: int| 0 <= k < queue@.len() ==> members@.contains(#[trigger] queue@[k]),
                    forall|k: int|
                        0 <= k < members@.len() ==> m_map.dom().contains(#[trigger] members@[k])
                            && m_map[members@[k]] == colour && connected(
                            m_map,
                            colour,
                            seed,
                            members@[k],
                        ),
                    forall|x: Location, n: Location|
                        members@.contains(x) && !queue@.contains(x) && x != m
                            && m_map.dom().contains(n) && m_map[n] == colour && adjacent(x, n)
                            ==> members@.contains(n),
                    forall|k: int|
                        0 <= k < j && m_map.dom().contains(#[trigger] cand@[k]) && m_map[cand@[k]]
                            == colour ==> members@.contains(cand@[k]),
                decreases cand@.len() - j,
            {
                let ghost mpre = members@;
                let ghost qpre = queue@;
                let nl = cand[j];
                let st = pairs_find(&self.stones, nl);
                let is_colour_stone = match st {
                    Some(c2) => c2 == colour,
                    None => false,
                };
                let already = vec_has(&members, nl);
                if is_colour_stone && !already {
                    proof {
                        assert(cand@.to_set().contains(nl));
                        assert(Set::new(|n: Location| adjacent(m, n)).contains(nl));
                        assert(adjacent(m, nl));
                        let mi = choose|mi: int| 0 <= mi < members@.len() && members@[mi] == m;
                        assert(connected(m_map, colour, seed, m));
                        lemma_connected_step(m_map, colour, m, nl);
                        lemma_connected_trans(m_map, colour, seed, m, nl);
                    }
                    members.push(nl);
                    queue.push(nl);
                    proof {
                        assert(members@.drop_last() =~= mpre);
                        assert(members@.to_set().subset_of(m_map.dom())) by {
                            assert forall|x: Location|
                                members@.to_set().contains(x) implies m_map.dom().contains(x) by {
                                let k = choose|k: int|
                                    0 <= k < members@.len() && members@[k] == x;
                            }
                        }
                        members@.unique_seq_to_set();
                        vstd::set_lib::lemma_len_subset(members@.to_set(), m_map.dom());
                    }
                }
                j = j + 1;
                proof {
                    assert forall|x: Location| mpre.contains(x) implies members@.contains(x) by {
                        let idx = choose|idx: int| 0 <= idx < mpre.len() && mpre[idx] == x;
                        assert(members@[idx] == x);
                    }
                    assert forall|x: Location| qpre.contains(x) implies queue@.contains(x) by {
                        let idx = choose|idx: int| 0 <= idx < qpre.len() && qpre[idx] == x;
                        assert(queue@[idx] == x);
                    }
                    assert forall|k: int|
                        0 <= k < queue@.len() implies members@.contains(#[trigger] queue@[k]) by {
                        if k < qpre.len() {
                            assert(queue@[k] == qpre[k]);
                            assert(mpre.contains(qpre[k]));
                        } else {
                            assert(queue@[k] == nl && members@.last() == nl);
                        }
                    }
                    assert forall|x: Location, n: Location|
                        members@.contains(x) && !queue@.contains(x) && x != m
                            && m_map.dom().contains(n) && m_map[n] == colour && adjacent(
                            x,
                            n,
                        ) implies members@.contains(n) by {
                        // `x` is not the stone just added, which sits in the queue
                        if members@.len() > mpre.len() {
                            assert(queue@.last() == nl);
                            assert(x != nl);
                        }
                        let xi = choose|xi: int| 0 <= xi < members@.len() && members@[xi] == x;
                        assert(xi < mpre.len() && mpre[xi] == x);
                        assert(!qpre.contains(x));
                        assert(mpre.contains(n));
                    }
                    assert forall|k: int|
                        0 <= k < j && m_map.dom().contains(#[trigger] cand@[k]) && m_map[cand@[k]]
                            == colour implies members@.contains(cand@[k]) by {
                        if k < j - 1 {
                            assert(mpre.contains(cand@[k]));
                        } else {
                            assert(cand@[k] == nl);
                            if already {
                                assert(mpre.contains(nl));
                            } else {
                                assert(members@.last() == nl);
                            }
                        }
                    }
                }
            }
            proof {
                // every member out of the queue is now saturated, `m` included
                assert forall|x: Location, n: Location|
                    members@.contains(x) && !queue@.contains(x) && m_map.dom().contains(n)
                        && m_map[n] == colour && adjacent(x, n) implies members@.contains(n) by {
                    if x == m {
                        assert(Set::new(|nn: Location| adjacent(m, nn)).contains(n));
                        assert(cand@.to_set().contains(n));
                        let k = choose|k: int| 0 <= k < cand@.len() && cand@[k] == n;
                        assert(m_map.dom().contains(cand@[k]) && m_map[cand@[k]] == colour);
                    }
                }
            }
        }
        // the visited set is exactly the group of the seed
        proof {
            assert forall|x: Location| members@.to_set().contains(x) implies connected(
                m_map,
                m_map[seed],
                seed,
                x,
            ) by {
                let k = choose|k: int| 0 <= k < members@.len() && members@[k] == x;
            }
            assert forall|x: Location, n: Location|
                members@.to_set().contains(x) && m_map.dom().contains(n) && m_map[n] == m_map[seed]
                    && adjacent(x, n) implies members@.to_set().contains(n) by {
                assert(members@.contains(x) && !queue@.contains(x));
            }
            lemma_component_characterisation(m_map, seed, members@.to_set());
        }
        let g = Group { colour, group: members };
        // drop the group from the working set
        let ghost gset = g.members();
        let mut kept: Vec<(Location, Stone)> = Vec::new();
        let mut i: usize = 0;
        while i < self.stones.len()
            invariant
                0 <= i <= self.stones@.len(),
                g.wf(),
                gset == g.members(),
                kept@ == remove_members(self.stones@.subrange(0, i as int), gset),
            decreases self.stones@.len() - i,
        {
            let ghost pre = kept@;
            let p = self.stones[i];
            if !vec_has(&g.group, p.0) {
                kept.push(p);
            }
            i = i + 1;
            proof {
                assert(self.stones@.subrange(0, i as int).drop_last() =~= self.stones@.subrange(
                    0,
                    i as int - 1,
                ));
                assert(self.stones@.subrange(0, i as int).last() == self.stones@[i as int - 1]);
                if gset.contains(self.stones@[i as int - 1].0) {
                    assert(kept@ =~= remove_members(self.stones@.subrange(0, i as int), gset));
                } else {
                    assert(kept@ =~= remove_members(self.stones@.subrange(0, i as int), gset));
                }
            }
        }
        proof {
            assert(self.stones@.subrange(0, self.stones@.len() as int) =~= self.stones@);
            lemma_remove_members(self.stones@, gset);
            assert forall|k: int| 0 <= k < kept@.len() implies (#[trigger] kept@[k]).0.col
                < usize::MAX && kept@[k].0.row < usize::MAX by {
                assert(self.stones@.contains(kept@[k]));
                let idx = choose|idx: int|
                    0 <= idx < self.stones@.len() && self.stones@[idx] == kept@[k];
                assert((#[trigger] self.stones@[idx]).0.col < usize::MAX && self.stones@[idx].0.row
                    < usize::MAX);
            }
            // the new working set is smaller
            assert(m_map.remove_keys(gset).dom() =~= m_map.dom().difference(gset));
            assert(m_map.dom().difference(gset).subset_of(m_map.dom().remove(seed)));
            vstd::set_lib::lemma_len_subset(
                m_map.dom().difference(gset),
                m_map.dom().remove(seed),
            );
        }
        self.stones = kept;
        Some(g)
    }

    /// Take over a working set of stones, one pair per occupied location.
    /// Coordinates at the numeric limit are ruled out so that neighbour
    /// candidates can always be generated.
    pub fn new(s: Vec<(Location, Stone)>) -> (r: GroupIterator)
        requires
            firsts_distinct(s@),
            forall|i: int|
                0 <= i < s@.len() ==> (#[trigger] s@[i]).0.col < usize::MAX && s@[i].0.row
                    < usize::MAX,
        ensures
            r.wf(),
            r@ == pairs_map(s@),
    {
        GroupIterator { stones: s }
    }
}

} // verus!
