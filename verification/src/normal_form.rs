//! Uniqueness of the normal form: a set of versions has one sequence of
//! intervals in normal form, and no other.

use crate::bound::{covers, is_normal_form, versions_of, Bound, Interval};
use crate::ranges::Ranges;
use crate::version::Version;
use vstd::prelude::*;

verus! {

/// Two lower bounds in normal form that cut at the same rank are the same
/// bound.
pub proof fn lemma_normal_lower_unique<T: Version>(x: Bound<T>, y: Bound<T>)
    requires
        x.is_normal_lower(),
        y.is_normal_lower(),
        x.lower_cut() == y.lower_cut(),
    ensures
        x == y,
{
    if let Bound::Inclusive(u) = x {
        if let Bound::Inclusive(v) = y {
            T::lemma_rank_injective(u, v);
        }
    }
}

/// Two upper bounds in normal form that cut at the same rank are the same
/// bound.
pub proof fn lemma_normal_upper_unique<T: Version>(x: Bound<T>, y: Bound<T>)
    requires
        x.is_normal_upper(),
        y.is_normal_upper(),
        x.upper_cut() == y.upper_cut(),
    ensures
        x == y,
{
    if let Bound::Exclusive(u) = x {
        T::lemma_rank_bounds(u);
        if let Bound::Exclusive(v) = y {
            T::lemma_rank_injective(u, v);
        }
    }
    if let Bound::Exclusive(v) = y {
        T::lemma_rank_bounds(v);
    }
}

/// In a normal form, a rank that lies at or after the end of the interval
/// before `s[n]`, and before the end of `s[n]`, is covered by `s[n]` or by
/// nothing.
pub proof fn lemma_covered_by_one<T: Version>(s: Seq<Interval<T>>, n: int, r: int)
    requires
        is_normal_form(s),
        0 <= n < s.len(),
        n > 0 ==> s[n - 1].end() <= r,
        r < s[n].end(),
    ensures
        covers(s, r) <==> s[n].holds(r),
{
    if covers(s, r) {
        let k = choose|k: int| 0 <= k < s.len() && (#[trigger] s[k]).holds(r);
        if k < n - 1 {
            assert(s[k].end() < s[n - 1].start());
            assert(s[n - 1].is_normal());
        } else if k > n {
            assert(s[n].end() < s[k].start());
        }
    }
}

/// A rank at or after the end of every interval is not covered.
pub proof fn lemma_covered_past_all<T: Version>(s: Seq<Interval<T>>, r: int)
    requires
        forall|k: int| 0 <= k < s.len() ==> (#[trigger] s[k]).end() <= r,
    ensures
        !covers(s, r),
{
}

/// In a normal form, a rank at or after the end of the last interval is not
/// covered.
pub proof fn lemma_covered_by_none<T: Version>(s: Seq<Interval<T>>, r: int)
    requires
        is_normal_form(s),
        s.len() > 0 ==> s[s.len() - 1].end() <= r,
    ensures
        !covers(s, r),
{
    if covers(s, r) {
        let k = choose|k: int| 0 <= k < s.len() && (#[trigger] s[k]).holds(r);
        if k < s.len() - 1 {
            assert(s[k].end() < s[s.len() - 1].start());
            assert(s[s.len() - 1].is_normal());
        }
    }
}

/// Where two normal forms of one set agree on their first `n` intervals, the
/// next interval of the one does not start before the next of the other.
proof fn lemma_start_not_before<T: Version>(a: Seq<Interval<T>>, b: Seq<Interval<T>>, n: int)
    requires
        is_normal_form(a),
        is_normal_form(b),
        versions_of(a) == versions_of(b),
        0 <= n < a.len(),
        n <= b.len(),
        forall|i: int| 0 <= i < n ==> a[i] == b[i],
    ensures
        n < b.len(),
        b[n].start() <= a[n].start(),
{
    let w = a[n].first_version();
    a[n].lemma_first_version();
    assert(a[n].holds(w.rank()));
    assert(versions_of(a).contains(w));
    assert(versions_of(b).contains(w));
    assert(covers(b, w.rank()));
    let j = choose|j: int| 0 <= j < b.len() && (#[trigger] b[j]).holds(w.rank());
    if j < n {
        assert(a[j].end() < a[n].start());
    } else if j > n {
        assert(b[n].end() < b[j].start());
    }
}

/// Where two normal forms of one set agree on their first `n` intervals and
/// on the start of the next, the next interval of the one does not end before
/// the next of the other.
proof fn lemma_end_not_before<T: Version>(a: Seq<Interval<T>>, b: Seq<Interval<T>>, n: int)
    requires
        is_normal_form(a),
        is_normal_form(b),
        versions_of(a) == versions_of(b),
        0 <= n < a.len(),
        n < b.len(),
        a[n].start() == b[n].start(),
    ensures
        b[n].end() <= a[n].end(),
{
    if a[n].end() < b[n].end() {
        if let Bound::Exclusive(w) = b[n].hi {
            T::lemma_rank_bounds(w);
        }
        match a[n].hi {
            Bound::Exclusive(w) => {
                assert(b[n].holds(w.rank()));
                assert(versions_of(b).contains(w));
                assert(versions_of(a).contains(w));
                assert(covers(a, w.rank()));
                let j = choose|j: int| 0 <= j < a.len() && (#[trigger] a[j]).holds(w.rank());
                if j < n {
                    assert(a[j].end() < a[n].start());
                } else if j > n {
                    assert(a[n].end() < a[j].start());
                }
            },
            _ => {},
        }
    }
}

/// Two normal forms of one set agree on their first `n` intervals.
proof fn lemma_prefix_agrees<T: Version>(a: Seq<Interval<T>>, b: Seq<Interval<T>>, n: int)
    requires
        is_normal_form(a),
        is_normal_form(b),
        versions_of(a) == versions_of(b),
        0 <= n <= a.len(),
        n <= b.len(),
    ensures
        forall|i: int| 0 <= i < n ==> a[i] == b[i],
    decreases n,
{
    if n > 0 {
        let m = n - 1;
        lemma_prefix_agrees(a, b, m);
        lemma_start_not_before(a, b, m);
        lemma_start_not_before(b, a, m);
        lemma_end_not_before(a, b, m);
        lemma_end_not_before(b, a, m);
        assert(a[m].is_normal() && b[m].is_normal());
        lemma_normal_lower_unique(a[m].lo, b[m].lo);
        lemma_normal_upper_unique(a[m].hi, b[m].hi);
    }
}

/// A set of versions has at most one normal form.
pub proof fn lemma_normal_form_unique<T: Version>(a: Seq<Interval<T>>, b: Seq<Interval<T>>)
    requires
        is_normal_form(a),
        is_normal_form(b),
        versions_of(a) == versions_of(b),
    ensures
        a == b,
{
    if a.len() <= b.len() {
        lemma_prefix_agrees(a, b, a.len() as int);
        if a.len() < b.len() {
            lemma_start_not_before(b, a, a.len() as int);
        }
    } else {
        lemma_prefix_agrees(a, b, b.len() as int);
        lemma_start_not_before(a, b, b.len() as int);
    }
    assert(a =~= b);
}

impl<T: Version> Ranges<T> {
    /// Well-formed range sets that hold the same versions are made of the
    /// same intervals.
    pub proof fn lemma_canonical(a: Self, b: Self)
        requires
            a.wf(),
            b.wf(),
            a@ == b@,
        ensures
            a.intervals() == b.intervals(),
    {
        lemma_normal_form_unique(a.intervals(), b.intervals());
    }
}

} // verus!
