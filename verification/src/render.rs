//! Range sets written out as text.
//!
//! The empty set is written `∅` and the full set `*`. An interval is written
//! by its bounds, `>=1, <4`, with an unbounded side left out. Intervals are
//! joined by ` | `, in ascending order.

use crate::bound::{Bound, Interval};
use crate::ranges::Ranges;
use crate::version::Version;
use vstd::prelude::*;
use vstd::string::StringExecFns;

verus! {

/// A bound written as the lower edge of an interval.
pub open spec fn lower_text<T: Version>(b: Bound<T>) -> Seq<char> {
    match b {
        Bound::UnboundedBelow => Seq::empty(),
        Bound::UnboundedAbove => seq!['>', '*'],
        Bound::Inclusive(v) => seq!['>', '='] + v.text(),
        Bound::Exclusive(v) => seq!['>'] + v.text(),
    }
}

/// A bound written as the upper edge of an interval.
pub open spec fn upper_text<T: Version>(b: Bound<T>) -> Seq<char> {
    match b {
        Bound::UnboundedBelow => seq!['<', '*'],
        Bound::UnboundedAbove => Seq::empty(),
        Bound::Inclusive(v) => seq!['<', '='] + v.text(),
        Bound::Exclusive(v) => seq!['<'] + v.text(),
    }
}

/// An interval written by its two bounds: both where both are written, the
/// one that is where the other is left out, and `*` where both are left out.
pub open spec fn interval_text<T: Version>(iv: Interval<T>) -> Seq<char> {
    let lower = lower_text(iv.lo);
    let upper = upper_text(iv.hi);
    if lower.len() == 0 && upper.len() == 0 {
        seq!['*']
    } else if lower.len() == 0 {
        upper
    } else if upper.len() == 0 {
        lower
    } else {
        lower + seq![',', ' '] + upper
    }
}

/// The intervals of `s` written one after the other, joined by ` | `.
pub open spec fn intervals_text<T: Version>(s: Seq<Interval<T>>) -> Seq<char>
    decreases s.len(),
{
    if s.len() == 0 {
        Seq::empty()
    } else if s.len() == 1 {
        interval_text(s[0])
    } else {
        intervals_text(s.drop_last()) + seq![' ', '|', ' '] + interval_text(s.last())
    }
}

/// A sequence of intervals written out: `∅` where there is none.
pub open spec fn ranges_text<T: Version>(s: Seq<Interval<T>>) -> Seq<char> {
    if s.len() == 0 {
        seq!['∅']
    } else {
        intervals_text(s)
    }
}

fn lower_to_text<T: Version>(b: &Bound<T>) -> (s: String)
    ensures
        s@ == lower_text(*b),
{
    proof {
        reveal_strlit("");
        reveal_strlit(">*");
        reveal_strlit(">=");
        reveal_strlit(">");
    }
    let s = match b {
        Bound::UnboundedBelow => String::from_str(""),
        Bound::UnboundedAbove => String::from_str(">*"),
        Bound::Inclusive(v) => {
            let mut s = String::from_str(">=");
            s.append(v.to_text().as_str());
            s
        },
        Bound::Exclusive(v) => {
            let mut s = String::from_str(">");
            s.append(v.to_text().as_str());
            s
        },
    };
    assert(s@ =~= lower_text(*b));
    s
}

fn upper_to_text<T: Version>(b: &Bound<T>) -> (s: String)
    ensures
        s@ == upper_text(*b),
{
    proof {
        reveal_strlit("");
        reveal_strlit("<*");
        reveal_strlit("<=");
        reveal_strlit("<");
    }
    let s = match b {
        Bound::UnboundedBelow => String::from_str("<*"),
        Bound::UnboundedAbove => String::from_str(""),
        Bound::Inclusive(v) => {
            let mut s = String::from_str("<=");
            s.append(v.to_text().as_str());
            s
        },
        Bound::Exclusive(v) => {
            let mut s = String::from_str("<");
            s.append(v.to_text().as_str());
            s
        },
    };
    assert(s@ =~= upper_text(*b));
    s
}

impl<T: Version> Interval<T> {
    /// Writes the interval out.
    pub fn to_text(&self) -> (s: String)
        ensures
            s@ == interval_text(*self),
    {
        proof {
            reveal_strlit("*");
            reveal_strlit(", ");
        }
        let lower = lower_to_text(&self.lo);
        let upper = upper_to_text(&self.hi);
        let no_lower = lower.as_str().is_empty();
        let no_upper = upper.as_str().is_empty();
        let s = if no_lower && no_upper {
            String::from_str("*")
        } else if no_lower {
            upper
        } else if no_upper {
            lower
        } else {
            let mut s = lower;
            s.append(", ");
            s.append(upper.as_str());
            s
        };
        assert(s@ =~= interval_text(*self));
        s
    }
}

impl<T: Version> Ranges<T> {
    /// Writes the set out.
    pub fn to_text(&self) -> (s: String)
        ensures
            s@ == ranges_text(self.intervals()),
    {
        proof {
            reveal_strlit("∅");
            reveal_strlit(" | ");
        }
        let items = self.items();
        if items.len() == 0 {
            let s = String::from_str("∅");
            assert(s@ =~= ranges_text(self.intervals()));
            return s;
        }
        let mut s = items[0].to_text();
        let mut i: usize = 1;
        assert(items@.take(1) =~= seq![items@[0]]);
        while i < items.len()
            invariant
                1 <= i <= items.len(),
                items@ == self.intervals(),
                s@ == intervals_text(items@.take(i as int)),
                " | "@ == seq![' ', '|', ' '],
            decreases items.len() - i,
        {
            s.append(" | ");
            s.append(items[i].to_text().as_str());
            proof {
                let next = items@.take(i + 1);
                assert(next.drop_last() =~= items@.take(i as int));
                assert(next.last() == items@[i as int]);
            }
            i += 1;
        }
        assert(items@.take(i as int) =~= items@);
        s
    }
}

} // verus!
