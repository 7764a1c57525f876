//! The range set: a set of versions kept as intervals in normal form.

use crate::bound::{is_normal_form, versions_between, versions_of, Bound, Interval};
use crate::normal_form::{lemma_covered_by_none, lemma_covered_by_one};
use crate::version::Version;
use vstd::prelude::*;

verus! {

/// A set of versions, held as an ascending sequence of intervals.
///
/// A well-formed value is in normal form: the intervals are non-empty, do not
/// overlap and do not touch, and every bound is written in the one way that
/// the normal form allows. Two well-formed values that hold the same versions
/// therefore hold the same intervals. Every constructor and operation returns
/// a well-formed value; none changes a value in place.
#[derive(Debug)]
pub struct Ranges<T: Version> {
    items: Vec<Interval<T>>,
}

impl<T: Version> View for Ranges<T> {
    type V = Set<T>;

    /// The versions in the set.
    open spec fn view(&self) -> Set<T> {
        versions_of(self.intervals())
    }
}

impl<T: Version> Ranges<T> {
    /// The intervals that make up the set, in ascending order.
    pub closed spec fn intervals(&self) -> Seq<Interval<T>> {
        self.items@
    }

    /// Well-formedness: the intervals are in normal form. It holds of every
    /// value that a program can get hold of.
    #[verifier::type_invariant]
    pub open spec fn wf(&self) -> bool {
        is_normal_form(self.intervals())
    }

    pub(crate) fn from_items(items: Vec<Interval<T>>) -> (r: Self)
        requires
            is_normal_form(items@),
        ensures
            r.intervals() == items@,
    {
        Ranges { items }
    }

    pub(crate) fn items(&self) -> (items: &Vec<Interval<T>>)
        ensures
            items@ == self.intervals(),
            self.wf(),
    {
        proof {
            use_type_invariant(self);
        }
        &self.items
    }

    /// The set that holds no version.
    pub fn empty() -> (r: Self)
        ensures
            r.wf(),
            r@ == Set::<T>::empty(),
            r.intervals() == Seq::<Interval<T>>::empty(),
    {
        let r = Ranges { items: Vec::new() };
        assert(r@ =~= Set::<T>::empty());
        r
    }

    /// The set that holds every version.
    pub fn full() -> (r: Self)
        ensures
            r.wf(),
            r@ == Set::<T>::full(),
            r.intervals() == seq![
                (Interval { lo: Bound::<T>::UnboundedBelow, hi: Bound::<T>::UnboundedAbove }),
            ],
    {
        let whole = Interval { lo: Bound::UnboundedBelow, hi: Bound::UnboundedAbove };
        let mut items: Vec<Interval<T>> = Vec::new();
        items.push(whole);
        proof {
            T::lemma_rank_bounds(T::least());
            assert(whole.is_normal());
        }
        let r = Ranges { items };
        proof {
            assert(r.intervals() =~= seq![whole]);
            assert forall|v: T| r@.contains(v) by {
                T::lemma_rank_bounds(v);
                assert(r.intervals()[0].holds(v.rank()));
            }
            assert(r@ =~= Set::<T>::full());
        }
        r
    }

    /// The set of the versions between two bounds.
    ///
    /// Any pair of bounds is accepted. Bounds that enclose no version, such
    /// as an inverted pair, give the empty set; no pair is rejected.
    pub fn from_bounds(lo: Bound<T>, hi: Bound<T>) -> (r: Self)
        ensures
            r.wf(),
            r@ == versions_between(lo, hi),
    {
        let mut items: Vec<Interval<T>> = Vec::new();
        if let Some(lower) = lo.normal_lower() {
            if let Some(upper) = hi.normal_upper() {
                if lower.opens_before(&upper) {
                    items.push(Interval { lo: lower, hi: upper });
                }
            }
        }
        let r = Ranges { items };
        proof {
            assert forall|v: T| r@.contains(v) == versions_between(lo, hi).contains(v) by {
                T::lemma_rank_bounds(v);
                if lo.lower_cut() <= v.rank() < hi.upper_cut() {
                    assert(r.intervals()[0].holds(v.rank()));
                }
            }
            assert(r@ =~= versions_between(lo, hi));
        }
        r
    }

    /// The set that holds the version `v` and no other.
    pub fn singleton(v: T) -> (r: Self)
        ensures
            r.wf(),
            r@ == set![v],
    {
        let r = Self::from_bounds(Bound::Inclusive(v), Bound::Inclusive(v));
        proof {
            assert forall|w: T| r@.contains(w) == set![v].contains(w) by {
                if w.rank() == v.rank() {
                    T::lemma_rank_injective(w, v);
                }
            }
            assert(r@ =~= set![v]);
        }
        r
    }

    /// The intervals that make up the set, in ascending order.
    pub fn to_intervals(&self) -> (list: Vec<Interval<T>>)
        ensures
            list@ == self.intervals(),
    {
        let mut list: Vec<Interval<T>> = Vec::new();
        let mut i: usize = 0;
        while i < self.items.len()
            invariant
                i <= self.items.len(),
                list@ == self.items@.take(i as int),
            decreases self.items.len() - i,
        {
            list.push(self.items[i]);
            assert(list@ =~= self.items@.take(i + 1));
            i += 1;
        }
        assert(list@ =~= self.items@);
        list
    }

    /// Whether the set holds no version.
    pub fn is_empty(&self) -> (b: bool)
        ensures
            b == (self@ == Set::<T>::empty()),
            b == (self.intervals().len() == 0),
    {
        proof {
            use_type_invariant(self);
            if self.intervals().len() > 0 {
                let first = self.intervals()[0];
                first.lemma_first_version();
                assert(self@.contains(first.first_version()));
            } else {
                assert(self@ =~= Set::<T>::empty());
            }
        }
        self.items.len() == 0
    }

    /// Whether the set holds the version `v`.
    ///
    /// Searches by halving for the first interval that ends after `v`; no
    /// other interval can hold it.
    pub fn contains(&self, v: &T) -> (b: bool)
        ensures
            b == self@.contains(*v),
    {
        proof {
            use_type_invariant(self);
        }
        let mut low: usize = 0;
        let mut high: usize = self.items.len();
        while low < high
            invariant
                low <= high <= self.items.len(),
                self.wf(),
                forall|k: int| 0 <= k < low ==> (#[trigger] self.items@[k]).end() <= v.rank(),
                forall|k: int|
                    high <= k < self.items@.len() ==> v.rank() < (#[trigger] self.items@[k]).end(),
            decreases high - low,
        {
            let mid: usize = low + (high - low) / 2;
            if self.items[mid].hi.keeps_out(v) {
                assert forall|k: int| 0 <= k < mid + 1 implies (#[trigger] self.items@[k]).end()
                    <= v.rank() by {
                    if k < mid {
                        assert(self.items@[k].end() < self.items@[mid as int].start());
                        assert(self.items@[mid as int].is_normal());
                    }
                }
                low = mid + 1;
            } else {
                assert forall|k: int| mid <= k < self.items@.len() implies v.rank() < (
                #[trigger] self.items@[k]).end() by {
                    if k > mid {
                        assert(self.items@[mid as int].end() < self.items@[k].start());
                        assert(self.items@[k].is_normal());
                    }
                }
                high = mid;
            }
        }
        if low < self.items.len() {
            proof {
                lemma_covered_by_one(self.items@, low as int, v.rank());
            }
            self.items[low].lo.lets_in(v)
        } else {
            proof {
                lemma_covered_by_none(self.items@, v.rank());
            }
            false
        }
    }
}

} // verus!
