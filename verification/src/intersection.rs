//! Intersection of two range sets, by one pass over both.

use crate::bound::{covers, is_normal_form, lemma_covers_push, Interval};
use crate::normal_form::{lemma_covered_by_none, lemma_covered_by_one, lemma_covered_past_all};
use crate::ranges::Ranges;
use crate::version::Version;
use vstd::prelude::*;

verus! {

impl<T: Version> Ranges<T> {
    /// The set of the versions that both `self` and `other` hold.
    ///
    /// Walks both sequences of intervals at once. The current interval of
    /// each side is compared, their overlap is kept where there is one, and
    /// the side whose interval ends first moves on.
    pub fn intersection(&self, other: &Self) -> (r: Self)
        ensures
            r.wf(),
            r@ == self@.intersect(other@),
            r.intervals().len() <= self.intervals().len() + other.intervals().len(),
    {
        let a = self.items();
        let b = other.items();
        let mut out: Vec<Interval<T>> = Vec::new();
        let mut i: usize = 0;
        let mut j: usize = 0;
        // Every rank below `reached` is settled.
        let ghost mut reached: int = T::floor() - 1;
        while i < a.len() && j < b.len()
            invariant
                i <= a.len(),
                j <= b.len(),
                a@ == self.intervals(),
                b@ == other.intervals(),
                is_normal_form(a@),
                is_normal_form(b@),
                is_normal_form(out@),
                out@.len() <= i + j,
                forall|k: int| 0 <= k < out@.len() ==> (#[trigger] out@[k]).end() <= reached,
                i > 0 ==> a@[i - 1].end() <= reached,
                j > 0 ==> b@[j - 1].end() <= reached,
                i < a.len() ==> reached <= a@[i as int].end(),
                j < b.len() ==> reached <= b@[j as int].end(),
                i < a.len() && j < b.len() ==> reached < a@[i as int].start() || reached
                    < b@[j as int].start(),
                forall|r: int| r < reached ==> (covers(out@, r) <==> covers(a@, r) && covers(b@, r)),
            decreases a.len() - i + b.len() - j,
        {
            let x = a[i];
            let y = b[j];
            assert(x.is_normal() && y.is_normal());
            let lo = if x.lo.lower_before(&y.lo) {
                y.lo
            } else {
                x.lo
            };
            let x_ends_first = !y.hi.upper_before(&x.hi);
            let hi = if x_ends_first {
                x.hi
            } else {
                y.hi
            };
            let ghost before = out@;
            let ghost was = reached;
            let both = Interval { lo, hi };
            if lo.opens_before(&hi) {
                out.push(both);
                proof {
                    assert(both.is_normal());
                    assert(is_normal_form(out@));
                }
            }
            proof {
                reached = hi.upper_cut();
                if i + 1 < a.len() {
                    assert(a@[i as int].end() < a@[i + 1].start());
                    assert(a@[i + 1].is_normal());
                }
                if j + 1 < b.len() {
                    assert(b@[j as int].end() < b@[j + 1].start());
                    assert(b@[j + 1].is_normal());
                }
                assert forall|r: int| r < reached implies (covers(out@, r) <==> covers(a@, r)
                    && covers(b@, r)) by {
                    if out@.len() > before.len() {
                        lemma_covers_push(before, both, r);
                        assert(out@ =~= before.push(both));
                    } else {
                        assert(out@ =~= before);
                    }
                    if r >= was {
                        lemma_covered_by_one(a@, i as int, r);
                        lemma_covered_by_one(b@, j as int, r);
                        lemma_covered_past_all(before, r);
                    }
                }
            }
            if x_ends_first {
                i += 1;
            } else {
                j += 1;
            }
        }
        let r = Self::from_items(out);
        proof {
            assert forall|v: T| r@.contains(v) == self@.intersect(other@).contains(v) by {
                let x = v.rank();
                if x >= reached {
                    lemma_covered_past_all(out@, x);
                    if i == a.len() {
                        lemma_covered_by_none(a@, x);
                    } else {
                        lemma_covered_by_none(b@, x);
                    }
                }
            }
            assert(r@ =~= self@.intersect(other@));
        }
        r
    }
}

} // verus!
