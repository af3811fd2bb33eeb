//! Extracting a single value from a collection.

use vstd::prelude::*;

verus! {

/// At most one value taken from a collection: the first, if there was any.
pub struct One<T>(Option<T>);

impl<T> One<T> {
    pub closed spec fn spec_value(&self) -> Option<T> {
        self.0
    }

    pub fn new(v: Option<T>) -> (r: One<T>)
        ensures
            r.spec_value() == v,
    {
        One(v)
    }

    /// Take the first value of a vector, if it has one.
    pub fn from_vec(v: Vec<T>) -> (r: One<T>)
        ensures
            r.spec_value() == (if v@.len() == 0 {
                Option::<T>::None
            } else {
                Some(v@[0])
            }),
    {
        let mut v = v;
        if v.len() == 0 {
            One(None)
        } else {
            One(Some(v.remove(0)))
        }
    }

    /// Did the collection hold no value at all?
    pub fn is_empty(&self) -> (r: bool)
        ensures
            r == (self.spec_value() is None),
    {
        self.0.is_none()
    }

    /// The value, out of its wrapper.
    pub fn value(self) -> (r: Option<T>)
        ensures
            r == self.spec_value(),
    {
        self.0
    }
}

} // verus!
