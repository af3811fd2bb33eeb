//! Folding a collection into a single accumulated state.

use vstd::prelude::*;

verus! {

/// Apply each element of `self` to a state with a function, in order, and
/// hand back the final state.
pub trait Accum<T>: Sized {
    /// The elements that will be fed to the function, in order.
    spec fn elements(&self) -> Seq<T>;

    /// Accumulate the elements into `state` with `func`: the result is the
    /// last link of a chain of states, one application of `func` per
    /// element, starting from `state`.
    fn accum<S, F: Fn(S, T) -> S>(self, state: S, func: F) -> (r: S)
        requires
            forall|s: S, t: T| #[trigger] call_requires(func, (s, t)),
        ensures
            exists|states: Seq<S>|
                {
                    &&& states.len() == self.elements().len() + 1
                    &&& states.first() == state
                    &&& states.last() == r
                    &&& forall|i: int|
                        0 <= i < self.elements().len() ==> #[trigger] call_ensures(
                            func,
                            (states[i], self.elements()[i]),
                            states[i + 1],
                        )
                },
    ;
}

impl<T> Accum<T> for Vec<T> {
    open spec fn elements(&self) -> Seq<T> {
        self@
    }

    #[verifier::loop_isolation(false)]
    fn accum<S, F: Fn(S, T) -> S>(self, state: S, func: F) -> (r: S) {
        let ghost all = self@;
        let ghost first: S = state;
        let mut v = self;
        let mut st = state;
        let ghost mut states: Seq<S> = seq![state];
        while v.len() > 0
            invariant
                all == all.subrange(0, all.len() - v@.len()) + v@,
                states.len() == all.len() - v@.len() + 1,
                states.first() == first,
                states.last() == st,
                forall|i: int|
                    0 <= i < all.len() - v@.len() ==> #[trigger] call_ensures(
                        func,
                        (states[i], all[i]),
                        states[i + 1],
                    ),
            decreases v@.len(),
        {
            let ghost v0 = v@;
            let ghost done = all.len() - v0.len();
            let t = v.remove(0);
            proof {
                assert(t == v0.first());
                assert(v@ =~= v0.drop_first());
                assert(all[done] == t) by {
                    assert(all == all.subrange(0, done) + v0);
                }
            }
            let st2 = func(st, t);
            st = st2;
            proof {
                states = states.push(st2);
                assert(all =~= all.subrange(0, all.len() - v@.len()) + v@);
                assert(states.last() == st2);
                assert forall|i: int| 0 <= i < all.len() - v@.len() implies #[trigger] call_ensures(
                    func,
                    (states[i], all[i]),
                    states[i + 1],
                ) by {
                    if i < done {
                        assert(states[i] == states.drop_last()[i]);
                        assert(states[i + 1] == states.drop_last()[i + 1]);
                    } else {
                        assert(states[i] == states.drop_last().last());
                        assert(states[i + 1] == st2);
                    }
                }
            }
        }
        proof {
            assert(all.subrange(0, all.len() as int) =~= all);
            assert(states.len() == all.len() + 1 && states.first() == first && states.last() == st
                && forall|i: int|
                0 <= i < all.len() ==> #[trigger] call_ensures(
                    func,
                    (states[i], all[i]),
                    states[i + 1],
                ));
        }
        st
    }
}

} // verus!
