//! Union, disjointness and inclusion of range sets, and the range set of any
//! list of intervals.

use crate::bound::{
    covers,
    is_normal_form,
    lemma_covers_concat,
    lemma_covers_push,
    versions_of,
    Bound,
    Interval,
};
use crate::normal_form::{lemma_covered_by_none, lemma_covered_by_one};
use crate::ranges::Ranges;
use crate::version::Version;
use vstd::prelude::*;

verus! {

/// Whether the rank `r` is covered by the intervals that a union has closed
/// so far, or by the one that it is building.
spec fn gathered<T: Version>(
    closed: Seq<Interval<T>>,
    building: Option<Interval<T>>,
    r: int,
) -> bool {
    covers(closed, r) || (building matches Some(c) && c.holds(r))
}

impl<T: Version> Ranges<T> {
    /// The set of the versions that `self` or `other` holds.
    ///
    /// Takes the intervals of both operands in ascending order of their
    /// starts. An interval that overlaps or touches the one being built
    /// extends it; one that starts after a gap closes it and opens the next.
    pub fn union(&self, other: &Self) -> (r: Self)
        ensures
            r.wf(),
            r@ == self@.union(other@),
            r.intervals().len() <= self.intervals().len() + other.intervals().len(),
    {
        let a = self.items();
        let b = other.items();
        let mut out: Vec<Interval<T>> = Vec::new();
        // The interval being built, once the first one has been taken.
        let mut building: Option<Interval<T>> = None;
        let mut i: usize = 0;
        let mut j: usize = 0;
        assert(a@.take(0) =~= Seq::<Interval<T>>::empty());
        assert(b@.take(0) =~= Seq::<Interval<T>>::empty());
        while i < a.len() || j < b.len()
            invariant
                i <= a.len(),
                j <= b.len(),
                a@ == self.intervals(),
                b@ == other.intervals(),
                is_normal_form(a@),
                is_normal_form(b@),
                is_normal_form(out@),
                building is Some ==> out@.len() + 1 <= i + j,
                building is None ==> i == 0 && j == 0 && out@.len() == 0,
                building matches Some(c) ==> {
                    &&& c.is_normal()
                    &&& forall|k: int| 0 <= k < out@.len() ==> (#[trigger] out@[k]).end() < c.start()
                    &&& i < a.len() ==> c.start() <= a@[i as int].start()
                    &&& j < b.len() ==> c.start() <= b@[j as int].start()
                },
                forall|r: int| #[trigger]
                    gathered(out@, building, r) <==> covers(a@.take(i as int), r) || covers(
                        b@.take(j as int),
                        r,
                    ),
            decreases a.len() - i + b.len() - j,
        {
            let from_a = j >= b.len() || (i < a.len() && !b[j].lo.lower_before(&a[i].lo));
            let next = if from_a {
                a[i]
            } else {
                b[j]
            };
            let ghost before = out@;
            let ghost was = building;
            let ghost taken_a = a@.take(i as int);
            let ghost taken_b = b@.take(j as int);
            proof {
                assert(next.is_normal());
                if i + 1 < a.len() {
                    assert(a@[i as int].end() < a@[i + 1].start());
                    assert(a@[i as int].is_normal());
                }
                if j + 1 < b.len() {
                    assert(b@[j as int].end() < b@[j + 1].start());
                    assert(b@[j as int].is_normal());
                }
            }
            match building {
                None => {
                    building = Some(next);
                },
                Some(c) => {
                    if c.hi.closes_before(&next.lo) {
                        out.push(c);
                        building = Some(next);
                        assert(is_normal_form(out@));
                    } else if c.hi.upper_before(&next.hi) {
                        building = Some(Interval { lo: c.lo, hi: next.hi });
                    }
                },
            }
            if from_a {
                i += 1;
            } else {
                j += 1;
            }
            proof {
                if from_a {
                    assert(a@.take(i as int) =~= taken_a.push(next));
                    assert(b@.take(j as int) =~= taken_b);
                } else {
                    assert(a@.take(i as int) =~= taken_a);
                    assert(b@.take(j as int) =~= taken_b.push(next));
                }
                assert forall|r: int| #[trigger]
                    gathered(out@, building, r) <==> covers(a@.take(i as int), r) || covers(
                        b@.take(j as int),
                        r,
                    ) by {
                    if from_a {
                        lemma_covers_push(taken_a, next, r);
                    } else {
                        lemma_covers_push(taken_b, next, r);
                    }
                    assert(gathered(before, was, r) <==> covers(taken_a, r) || covers(taken_b, r));
                    match was {
                        None => {
                            assert(out@ =~= before);
                            assert(!covers(taken_a, r) && !covers(taken_b, r));
                        },
                        Some(c) => {
                            assert(c.start() <= next.start());
                            if c.end() < next.start() {
                                assert(out@ =~= before.push(c));
                                lemma_covers_push(before, c, r);
                                } else {
                                assert(out@ =~= before);
                            }
                        },
                    }
                }
            }
        }
        let ghost before = out@;
        if let Some(c) = building {
            out.push(c);
            assert(is_normal_form(out@));
        }
        let r = Self::from_items(out);
        proof {
            assert(a@.take(i as int) =~= a@);
            assert(b@.take(j as int) =~= b@);
            assert forall|v: T| r@.contains(v) == self@.union(other@).contains(v) by {
                assert(gathered(before, building, v.rank()) <==> covers(a@, v.rank()) || covers(
                    b@,
                    v.rank(),
                ));
                if out@.len() > before.len() {
                    assert(out@ =~= before.push(building->Some_0));
                    lemma_covers_push(before, building->Some_0, v.rank());
                } else {
                    assert(out@ =~= before);
                }
            }
            assert(r@ =~= self@.union(other@));
        }
        r
    }

    /// The set of the versions that any of the given intervals holds.
    ///
    /// The intervals may come in any order, overlap, touch or be empty, and
    /// their bounds need not be in normal form: the result is the normal form
    /// of what they hold together.
    pub fn from_intervals(list: &Vec<Interval<T>>) -> (r: Self)
        ensures
            r.wf(),
            r@ == versions_of(list@),
    {
        assert(list@.subrange(0, list@.len() as int) =~= list@);
        Self::from_run(list, 0, list.len())
    }

    /// The set of the versions that the intervals `list[from..to]` hold:
    /// the union of what each half of the run holds.
    fn from_run(list: &Vec<Interval<T>>, from: usize, to: usize) -> (r: Self)
        requires
            from <= to <= list.len(),
        ensures
            r.wf(),
            r@ == versions_of(list@.subrange(from as int, to as int)),
        decreases to - from,
    {
        let ghost run = list@.subrange(from as int, to as int);
        if to - from == 0 {
            let r = Self::empty();
            assert(r@ =~= versions_of(run));
            r
        } else if to - from == 1 {
            let r = Self::from_bounds(list[from].lo, list[from].hi);
            proof {
                assert forall|v: T| r@.contains(v) == versions_of(run).contains(v) by {
                    if covers(run, v.rank()) {
                        let k = choose|k: int| 0 <= k < run.len() && (#[trigger] run[k]).holds(
                            v.rank(),
                        );
                    } else {
                        assert(!run[0].holds(v.rank()));
                    }
                }
                assert(r@ =~= versions_of(run));
            }
            r
        } else {
            let mid: usize = from + (to - from) / 2;
            let left = Self::from_run(list, from, mid);
            let right = Self::from_run(list, mid, to);
            let r = left.union(&right);
            proof {
                let first = list@.subrange(from as int, mid as int);
                let second = list@.subrange(mid as int, to as int);
                assert(run =~= first + second);
                assert forall|v: T| r@.contains(v) == versions_of(run).contains(v) by {
                    lemma_covers_concat(first, second, v.rank());
                }
                assert(r@ =~= versions_of(run));
            }
            r
        }
    }

    /// Whether `self` and `other` have no version in common.
    ///
    /// Walks both sequences of intervals as `intersection` does, and stops at
    /// the first overlap.
    pub fn is_disjoint(&self, other: &Self) -> (b: bool)
        ensures
            b == self@.disjoint(other@),
    {
        let a = self.items();
        let b = other.items();
        let mut i: usize = 0;
        let mut j: usize = 0;
        let ghost mut reached: int = T::floor() - 1;
        while i < a.len() && j < b.len()
            invariant
                i <= a.len(),
                j <= b.len(),
                a@ == self.intervals(),
                b@ == other.intervals(),
                is_normal_form(a@),
                is_normal_form(b@),
                i > 0 ==> a@[i - 1].end() <= reached,
                j > 0 ==> b@[j - 1].end() <= reached,
                i < a.len() ==> reached <= a@[i as int].end(),
                j < b.len() ==> reached <= b@[j as int].end(),
                forall|r: int| r < reached ==> !(covers(a@, r) && covers(b@, r)),
            decreases a.len() - i + b.len() - j,
        {
            let x = a[i];
            let y = b[j];
            assert(x.is_normal() && y.is_normal());
            let lo = if x.lo.lower_before(&y.lo) {
                y.lo
            } else {
                x.lo
            };
            let x_ends_first = !y.hi.upper_before(&x.hi);
            let hi = if x_ends_first {
                x.hi
            } else {
                y.hi
            };
            if lo.opens_before(&hi) {
                proof {
                    let both = Interval { lo, hi };
                    both.lemma_first_version();
                    let w = both.first_version();
                    assert(a@[i as int].holds(w.rank()));
                    assert(b@[j as int].holds(w.rank()));
                    assert(self@.contains(w) && other@.contains(w));
                }
                return false;
            }
            proof {
                let was = reached;
                reached = hi.upper_cut();
                if i + 1 < a.len() {
                    assert(a@[i as int].end() < a@[i + 1].start());
                    assert(a@[i + 1].is_normal());
                }
                if j + 1 < b.len() {
                    assert(b@[j as int].end() < b@[j + 1].start());
                    assert(b@[j + 1].is_normal());
                }
                assert forall|r: int| r < reached implies !(covers(a@, r) && covers(b@, r)) by {
                    if r >= was {
                        lemma_covered_by_one(a@, i as int, r);
                        lemma_covered_by_one(b@, j as int, r);
                    }
                }
            }
            if x_ends_first {
                i += 1;
            } else {
                j += 1;
            }
        }
        proof {
            assert forall|v: T| self@.contains(v) implies !other@.contains(v) by {
                let x = v.rank();
                if x >= reached {
                    if i == a.len() {
                        lemma_covered_by_none(a@, x);
                    } else {
                        lemma_covered_by_none(b@, x);
                    }
                }
            }
        }
        true
    }

    /// Whether `other` holds every version that `self` holds.
    ///
    /// Walks the intervals of `self`, and for each one looks among the
    /// intervals of `other`, from where the last search stopped, for the one
    /// that holds it whole.
    pub fn subset_of(&self, other: &Self) -> (b: bool)
        ensures
            b == self@.subset_of(other@),
    {
        let a = self.items();
        let b = other.items();
        let mut i: usize = 0;
        let mut j: usize = 0;
        assert(a@.take(0) =~= Seq::<Interval<T>>::empty());
        while i < a.len()
            invariant
                i <= a.len(),
                j <= b.len(),
                a@ == self.intervals(),
                b@ == other.intervals(),
                is_normal_form(a@),
                is_normal_form(b@),
                i < a.len() && j > 0 ==> b@[j - 1].end() <= a@[i as int].start(),
                forall|r: int| covers(a@.take(i as int), r) ==> covers(b@, r),
            decreases a.len() - i + b.len() - j,
        {
            let x = a[i];
            assert(x.is_normal());
            if j < b.len() && !x.lo.opens_before(&b[j].hi) {
                // `b[j]` ends before `x` starts.
                j += 1;
            } else if j < b.len() && !x.lo.lower_before(&b[j].lo) && !b[j].hi.upper_before(&x.hi) {
                // `b[j]` holds `x` whole.
                proof {
                    let taken = a@.take(i as int);
                    assert(a@.take(i + 1) =~= taken.push(x));
                    assert forall|r: int| covers(a@.take(i + 1), r) implies covers(b@, r) by {
                        lemma_covers_push(taken, x, r);
                        if x.holds(r) {
                            assert(b@[j as int].holds(r));
                        }
                    }
                    if i + 1 < a.len() {
                        assert(a@[i as int].end() < a@[i + 1].start());
                    }
                }
                i += 1;
            } else {
                proof {
                    // A version of `x` that `other` does not hold: its first
                    // one, or the first one after `b[j]`.
                    let w = if j < b.len() && b@[j as int].start() <= x.start() {
                        b@[j as int].hi->Exclusive_0
                    } else {
                        x.first_version()
                    };
                    x.lemma_first_version();
                    if let Bound::Exclusive(v) = x.hi {
                        T::lemma_rank_bounds(v);
                    }
                    if j == b.len() {
                        lemma_covered_by_none(b@, w.rank());
                    } else if b@[j as int].start() <= x.start() {
                        assert(b@[j as int].is_normal());
                        if j + 1 < b.len() {
                            assert(b@[j as int].end() < b@[j + 1].start());
                            assert(b@[j + 1].is_normal());
                            lemma_covered_by_one(b@, j + 1, w.rank());
                        } else {
                            lemma_covered_by_none(b@, w.rank());
                        }
                    } else {
                        lemma_covered_by_one(b@, j as int, w.rank());
                    }
                    assert(a@[i as int].holds(w.rank()));
                    assert(self@.contains(w) && !other@.contains(w));
                }
                return false;
            }
        }
        proof {
            assert(a@.take(i as int) =~= a@);
        }
        true
    }
}

} // verus!
