//! Equality and copies of range sets.
//!
//! Range sets are equal when they are made of the same intervals. For
//! well-formed values that is the same as holding the same versions.

use crate::bound::Interval;
use crate::ranges::Ranges;
use crate::version::Version;
use vstd::prelude::*;
use vstd::std_specs::cmp::PartialEqSpecImpl;

verus! {

impl<T: Version> PartialEq for Ranges<T> {
    fn eq(&self, other: &Self) -> (r: bool) {
        let a = self.items();
        let b = other.items();
        if a.len() != b.len() {
            return false;
        }
        let mut i: usize = 0;
        while i < a.len()
            invariant
                i <= a.len(),
                a.len() == b.len(),
                a@ == self.intervals(),
                b@ == other.intervals(),
                forall|k: int| 0 <= k < i ==> a@[k] == b@[k],
            decreases a.len() - i,
        {
            if !a[i].same(&b[i]) {
                return false;
            }
            i += 1;
        }
        assert(a@ =~= b@);
        true
    }
}

impl<T: Version> PartialEqSpecImpl for Ranges<T> {
    open spec fn obeys_eq_spec() -> bool {
        true
    }

    open spec fn eq_spec(&self, other: &Self) -> bool {
        self.intervals() == other.intervals()
    }
}

impl<T: Version> Eq for Ranges<T> {

}

impl<T: Version> Clone for Ranges<T> {
    fn clone(&self) -> (r: Self)
        ensures
            r.intervals() == self.intervals(),
    {
        let a = self.items();
        let mut out: Vec<Interval<T>> = Vec::new();
        let mut i: usize = 0;
        while i < a.len()
            invariant
                i <= a.len(),
                out@ == a@.take(i as int),
            decreases a.len() - i,
        {
            out.push(a[i]);
            assert(out@ =~= a@.take(i + 1));
            i += 1;
        }
        assert(out@ =~= a@);
        Ranges::from_items(out)
    }
}

} // verus!
