//! Bounds and intervals of versions.

use crate::version::Version;
use vstd::prelude::*;

verus! {

/// One edge of an interval of versions.
///
/// A bound stands for a cut in the order of versions. Where the cut falls
/// depends on the side of the interval that the bound closes: `Inclusive(v)`
/// cuts before `v` as a lower bound and after `v` as an upper bound, and
/// `Exclusive(v)` does the opposite. `UnboundedBelow` cuts before every
/// version and `UnboundedAbove` after every version, on either side.
#[derive(Copy, Debug, PartialEq, Eq)]
pub enum Bound<T> {
    UnboundedBelow,
    UnboundedAbove,
    Inclusive(T),
    Exclusive(T),
}

/// A contiguous run of versions between a lower and an upper bound.
#[derive(Copy, Debug, PartialEq, Eq)]
pub struct Interval<T> {
    pub lo: Bound<T>,
    pub hi: Bound<T>,
}

impl<T: Copy> Clone for Bound<T> {
    fn clone(&self) -> (r: Self)
        ensures
            r == *self,
    {
        *self
    }
}

impl<T: Copy> Clone for Interval<T> {
    fn clone(&self) -> (r: Self)
        ensures
            r == *self,
    {
        *self
    }
}

impl<T: Version> Bound<T> {
    /// As a lower bound: the least rank that the bound lets in.
    pub open spec fn lower_cut(self) -> int {
        match self {
            Bound::UnboundedBelow => T::floor(),
            Bound::UnboundedAbove => T::ceiling() + 1,
            Bound::Inclusive(v) => v.rank(),
            Bound::Exclusive(v) => v.rank() + 1,
        }
    }

    /// As an upper bound: the least rank that the bound keeps out.
    pub open spec fn upper_cut(self) -> int {
        match self {
            Bound::UnboundedBelow => T::floor(),
            Bound::UnboundedAbove => T::ceiling() + 1,
            Bound::Inclusive(v) => v.rank() + 1,
            Bound::Exclusive(v) => v.rank(),
        }
    }

    /// The one way a lower bound is written in normal form: unbounded when it
    /// lets every version in, inclusive otherwise.
    pub open spec fn is_normal_lower(self) -> bool {
        match self {
            Bound::UnboundedBelow => true,
            Bound::Inclusive(v) => T::floor() < v.rank(),
            _ => false,
        }
    }

    /// The one way an upper bound is written in normal form: unbounded when
    /// it keeps no version out, exclusive otherwise.
    pub open spec fn is_normal_upper(self) -> bool {
        match self {
            Bound::UnboundedAbove => true,
            Bound::Exclusive(_) => true,
            _ => false,
        }
    }

    /// Rewrites a lower bound in normal form, or reports that no version
    /// lies at or above it.
    pub fn normal_lower(self) -> (r: Option<Bound<T>>)
        ensures
            r.is_some() <==> self.lower_cut() <= T::ceiling(),
            r matches Some(b) ==> b.is_normal_lower() && b.lower_cut() == self.lower_cut(),
    {
        proof {
            T::lemma_rank_bounds(T::least());
            if let Bound::Inclusive(v) = self {
                T::lemma_rank_bounds(v);
            }
        }
        match self {
            Bound::UnboundedBelow => Some(Bound::UnboundedBelow),
            Bound::UnboundedAbove => None,
            Bound::Inclusive(v) => {
                if v.is_least() {
                    Some(Bound::UnboundedBelow)
                } else {
                    proof {
                        T::lemma_rank_bounds(v);
                    }
                    Some(Bound::Inclusive(v))
                }
            },
            Bound::Exclusive(v) => {
                match v.successor() {
                    Some(n) => {
                        proof {
                            T::lemma_rank_bounds(v);
                            T::lemma_rank_bounds(n);
                        }
                        Some(Bound::Inclusive(n))
                    },
                    None => None,
                }
            },
        }
    }

    /// Rewrites an upper bound in normal form, or reports that no version
    /// lies below it.
    pub fn normal_upper(self) -> (r: Option<Bound<T>>)
        ensures
            r.is_some() <==> T::floor() < self.upper_cut(),
            r matches Some(b) ==> b.is_normal_upper() && b.upper_cut() == self.upper_cut(),
    {
        match self {
            Bound::UnboundedBelow => None,
            Bound::UnboundedAbove => {
                proof {
                    T::lemma_rank_bounds(T::least());
                }
                Some(Bound::UnboundedAbove)
            },
            Bound::Inclusive(v) => {
                proof {
                    T::lemma_rank_bounds(v);
                }
                match v.successor() {
                    Some(n) => Some(Bound::Exclusive(n)),
                    None => Some(Bound::UnboundedAbove),
                }
            },
            Bound::Exclusive(v) => {
                proof {
                    T::lemma_rank_bounds(v);
                }
                if v.is_least() {
                    None
                } else {
                    Some(Bound::Exclusive(v))
                }
            },
        }
    }

    /// Whether two bounds are the same bound.
    pub fn same(&self, other: &Bound<T>) -> (b: bool)
        ensures
            b == (*self == *other),
    {
        match (self, other) {
            (Bound::UnboundedBelow, Bound::UnboundedBelow) => true,
            (Bound::UnboundedAbove, Bound::UnboundedAbove) => true,
            (Bound::Inclusive(u), Bound::Inclusive(v)) => Self::same_version(u, v),
            (Bound::Exclusive(u), Bound::Exclusive(v)) => Self::same_version(u, v),
            _ => false,
        }
    }

    fn same_version(u: &T, v: &T) -> (b: bool)
        ensures
            b == (*u == *v),
    {
        let b = !u.precedes(v) && !v.precedes(u);
        proof {
            if b {
                T::lemma_rank_injective(*u, *v);
            }
        }
        b
    }

    /// Whether the lower bound `self` lets the version `v` in.
    pub fn lets_in(&self, v: &T) -> (b: bool)
        ensures
            b == (self.lower_cut() <= v.rank()),
    {
        proof {
            T::lemma_rank_bounds(*v);
        }
        match self {
            Bound::UnboundedBelow => true,
            Bound::UnboundedAbove => false,
            Bound::Inclusive(u) => !v.precedes(u),
            Bound::Exclusive(u) => u.precedes(v),
        }
    }

    /// Whether the upper bound `self` keeps the version `v` out.
    pub fn keeps_out(&self, v: &T) -> (b: bool)
        ensures
            b == (self.upper_cut() <= v.rank()),
    {
        proof {
            T::lemma_rank_bounds(*v);
        }
        match self {
            Bound::UnboundedBelow => true,
            Bound::UnboundedAbove => false,
            Bound::Inclusive(u) => u.precedes(v),
            Bound::Exclusive(u) => !v.precedes(u),
        }
    }

    /// Whether the lower bound `self` cuts strictly before the lower bound
    /// `other`.
    pub(crate) fn lower_before(&self, other: &Bound<T>) -> (b: bool)
        requires
            self.is_normal_lower(),
            other.is_normal_lower(),
        ensures
            b == (self.lower_cut() < other.lower_cut()),
    {
        match (self, other) {
            (Bound::Inclusive(u), Bound::Inclusive(v)) => u.precedes(v),
            (Bound::UnboundedBelow, Bound::Inclusive(_)) => true,
            _ => false,
        }
    }

    /// Whether the upper bound `self` cuts strictly before the upper bound
    /// `other`.
    pub(crate) fn upper_before(&self, other: &Bound<T>) -> (b: bool)
        requires
            self.is_normal_upper(),
            other.is_normal_upper(),
        ensures
            b == (self.upper_cut() < other.upper_cut()),
    {
        proof {
            if let Bound::Exclusive(u) = *self {
                T::lemma_rank_bounds(u);
            }
            if let Bound::Exclusive(v) = *other {
                T::lemma_rank_bounds(v);
            }
        }
        match (self, other) {
            (Bound::Exclusive(u), Bound::Exclusive(v)) => u.precedes(v),
            (Bound::Exclusive(_), Bound::UnboundedAbove) => true,
            _ => false,
        }
    }

    /// Whether the upper bound `self` cuts strictly before the lower bound
    /// `lower`, so that some version lies between what the one closes and
    /// what the other opens.
    pub(crate) fn closes_before(&self, lower: &Bound<T>) -> (b: bool)
        requires
            self.is_normal_upper(),
            lower.is_normal_lower(),
        ensures
            b == (self.upper_cut() < lower.lower_cut()),
    {
        proof {
            T::lemma_rank_bounds(T::least());
            if let Bound::Exclusive(u) = *self {
                T::lemma_rank_bounds(u);
            }
            if let Bound::Inclusive(v) = *lower {
                T::lemma_rank_bounds(v);
            }
        }
        match (self, lower) {
            (Bound::Exclusive(u), Bound::Inclusive(v)) => u.precedes(v),
            _ => false,
        }
    }

    /// Whether the lower bound `self` cuts strictly before the upper bound
    /// `upper`, so that some version lies between the two.
    pub(crate) fn opens_before(&self, upper: &Bound<T>) -> (b: bool)
        requires
            self.is_normal_lower(),
            upper.is_normal_upper(),
        ensures
            b == (self.lower_cut() < upper.upper_cut()),
    {
        match (self, upper) {
            (Bound::Inclusive(u), Bound::Exclusive(v)) => u.precedes(v),
            (Bound::Inclusive(u), _) => {
                proof {
                    T::lemma_rank_bounds(*u);
                }
                true
            },
            (_, Bound::Exclusive(v)) => {
                proof {
                    T::lemma_rank_bounds(*v);
                }
                !v.is_least()
            },
            _ => {
                proof {
                    T::lemma_rank_bounds(T::least());
                }
                true
            },
        }
    }
}

impl<T: Version> Interval<T> {
    /// Rank of the first version of the interval.
    pub open spec fn start(self) -> int {
        self.lo.lower_cut()
    }

    /// Rank right after the last version of the interval.
    pub open spec fn end(self) -> int {
        self.hi.upper_cut()
    }

    /// Whether the interval covers the rank `r`.
    pub open spec fn holds(self, r: int) -> bool {
        self.start() <= r < self.end()
    }

    /// An interval in normal form: both bounds in normal form, and at least
    /// one version between them.
    pub open spec fn is_normal(self) -> bool {
        &&& self.lo.is_normal_lower()
        &&& self.hi.is_normal_upper()
        &&& self.start() < self.end()
    }

    /// Whether two intervals have the same bounds.
    pub fn same(&self, other: &Interval<T>) -> (b: bool)
        ensures
            b == (*self == *other),
    {
        self.lo.same(&other.lo) && self.hi.same(&other.hi)
    }

    /// A version that a normal interval is sure to hold: its first one.
    pub open spec fn first_version(self) -> T {
        match self.lo {
            Bound::Inclusive(v) => v,
            _ => T::least(),
        }
    }

    /// The first version of a normal interval sits at its start.
    pub proof fn lemma_first_version(self)
        requires
            self.is_normal(),
        ensures
            self.first_version().rank() == self.start(),
            self.holds(self.first_version().rank()),
    {
        T::lemma_rank_bounds(T::least());
    }
}

/// Whether one of the intervals of `s` covers the rank `r`.
pub open spec fn covers<T: Version>(s: Seq<Interval<T>>, r: int) -> bool {
    exists|i: int| 0 <= i < s.len() && (#[trigger] s[i]).holds(r)
}

/// A sequence with one more interval covers what it covered before and what
/// the new interval holds.
pub proof fn lemma_covers_push<T: Version>(s: Seq<Interval<T>>, last: Interval<T>, r: int)
    ensures
        covers(s.push(last), r) <==> covers(s, r) || last.holds(r),
{
    let t = s.push(last);
    if covers(s, r) {
        let i = choose|i: int| 0 <= i < s.len() && (#[trigger] s[i]).holds(r);
        assert(t[i].holds(r));
    }
    if last.holds(r) {
        assert(t[s.len() as int].holds(r));
    }
    if covers(t, r) {
        let i = choose|i: int| 0 <= i < t.len() && (#[trigger] t[i]).holds(r);
        if i < s.len() {
            assert(s[i].holds(r));
        }
    }
}

/// Two sequences laid end to end cover what either covers.
pub proof fn lemma_covers_concat<T: Version>(s: Seq<Interval<T>>, t: Seq<Interval<T>>, r: int)
    ensures
        covers(s + t, r) <==> covers(s, r) || covers(t, r),
{
    let st = s + t;
    if covers(s, r) {
        let i = choose|i: int| 0 <= i < s.len() && (#[trigger] s[i]).holds(r);
        assert(st[i].holds(r));
    }
    if covers(t, r) {
        let i = choose|i: int| 0 <= i < t.len() && (#[trigger] t[i]).holds(r);
        assert(st[s.len() + i].holds(r));
    }
    if covers(st, r) {
        let i = choose|i: int| 0 <= i < st.len() && (#[trigger] st[i]).holds(r);
        if i < s.len() {
            assert(s[i].holds(r));
        } else {
            assert(t[i - s.len()].holds(r));
        }
    }
}

/// The normal form of a sequence of intervals: every interval in normal form,
/// in ascending order, and any two of them separated by at least one version
/// that neither covers.
pub open spec fn is_normal_form<T: Version>(s: Seq<Interval<T>>) -> bool {
    &&& forall|i: int| 0 <= i < s.len() ==> (#[trigger] s[i]).is_normal()
    &&& forall|i: int, j: int|
        0 <= i < j < s.len() ==> (#[trigger] s[i]).end() < (#[trigger] s[j]).start()
}

/// The versions that the intervals of `s` hold.
pub open spec fn versions_of<T: Version>(s: Seq<Interval<T>>) -> Set<T> {
    Set::new(|v: T| covers(s, v.rank()))
}

/// The versions between a lower and an upper bound.
pub open spec fn versions_between<T: Version>(lo: Bound<T>, hi: Bound<T>) -> Set<T> {
    Set::new(|v: T| lo.lower_cut() <= v.rank() < hi.upper_cut())
}

} // verus!
