//! Complement of a range set: the gaps between its intervals.

use crate::bound::{covers, is_normal_form, lemma_covers_push, Bound, Interval};
use crate::normal_form::{lemma_covered_by_none, lemma_covered_by_one, lemma_covered_past_all};
use crate::ranges::Ranges;
use crate::version::Version;
use vstd::prelude::*;

verus! {

impl<T: Version> Ranges<T> {
    /// The set of the versions that `self` does not hold.
    ///
    /// The result is made of the gaps of `self`: what lies before its first
    /// interval, between two neighbours, and after its last one. Each gap
    /// takes over the bounds next to it, turned round.
    pub fn complement(&self) -> (r: Self)
        ensures
            r.wf(),
            r@ == self@.complement(),
            r.intervals().len() <= self.intervals().len() + 1,
    {
        let src = self.items();
        let mut out: Vec<Interval<T>> = Vec::new();
        // Lower bound of the gap that is still open, if any.
        let mut open: Option<Bound<T>> = Some(Bound::UnboundedBelow);
        let ghost mut reached: int = T::floor();
        let mut i: usize = 0;
        proof {
            T::lemma_rank_bounds(T::least());
        }
        while i < src.len()
            invariant
                i <= src.len(),
                src@ == self.intervals(),
                is_normal_form(src@),
                is_normal_form(out@),
                out@.len() <= i,
                T::floor() <= reached <= T::ceiling() + 1,
                i > 0 ==> reached == src@[i - 1].end(),
                i == 0 ==> reached == T::floor(),
                match open {
                    Some(b) => b.is_normal_lower() && b.lower_cut() == reached && reached
                        <= T::ceiling(),
                    None => reached == T::ceiling() + 1,
                },
                forall|k: int| 0 <= k < out@.len() ==> (#[trigger] out@[k]).end() < reached,
                forall|r: int|
                    T::floor() <= r < reached ==> (covers(out@, r) <==> !covers(src@, r)),
            decreases src.len() - i,
        {
            let current = src[i];
            let ghost before = out@;
            let ghost was = reached;
            assert(current.is_normal());
            proof {
                if i > 0 {
                    assert(src@[i - 1].end() < src@[i as int].start());
                }
                if let Bound::Exclusive(v) = current.hi {
                    T::lemma_rank_bounds(v);
                }
            }
            if let Some(lower) = open {
                if let Bound::Inclusive(v) = current.lo {
                    let gap = Interval { lo: lower, hi: Bound::Exclusive(v) };
                    out.push(gap);
                    proof {
                        assert(gap.is_normal());
                        assert(is_normal_form(out@));
                    }
                }
            }
            open =
            match current.hi {
                Bound::Exclusive(v) => Some(Bound::Inclusive(v)),
                _ => None,
            };
            proof {
                reached = current.end();
                assert forall|r: int| T::floor() <= r < reached implies (covers(out@, r)
                    <==> !covers(src@, r)) by {
                    if out@.len() > before.len() {
                        lemma_covers_push(before, out@[before.len() as int], r);
                        assert(out@ =~= before.push(out@[before.len() as int]));
                    } else {
                        assert(out@ =~= before);
                    }
                    if r >= was {
                        lemma_covered_by_one(src@, i as int, r);
                        lemma_covered_past_all(before, r);
                    }
                }
            }
            i += 1;
        }
        let ghost before = out@;
        if let Some(lower) = open {
            let gap = Interval { lo: lower, hi: Bound::UnboundedAbove };
            out.push(gap);
            proof {
                assert(gap.is_normal());
                assert(is_normal_form(out@));
            }
        }
        let r = Self::from_items(out);
        proof {
            assert forall|v: T| r@.contains(v) == self@.complement().contains(v) by {
                T::lemma_rank_bounds(v);
                if out@.len() > before.len() {
                    lemma_covers_push(before, out@[before.len() as int], v.rank());
                    assert(out@ =~= before.push(out@[before.len() as int]));
                } else {
                    assert(out@ =~= before);
                }
                if v.rank() >= reached {
                    lemma_covered_by_none(src@, v.rank());
                    lemma_covered_past_all(before, v.rank());
                }
            }
            assert(r@ =~= self@.complement());
        }
        r
    }
}

} // verus!
