//! The notation of range sets can be read back: sets that are written alike
//! are the same set.

use crate::bound::{Bound, Interval};
use crate::ranges::Ranges;
use crate::render::{interval_text, intervals_text, lower_text, ranges_text, upper_text};
use crate::version::Version;
use vstd::prelude::*;

verus! {

/// Whether no character of `s` is `c`.
pub open spec fn free_of(s: Seq<char>, c: char) -> bool {
    forall|i: int| 0 <= i < s.len() ==> s[i] != c
}

/// A text is cut in one way only at the first occurrence of a character.
pub proof fn lemma_cut_at_first(c: char, x: Seq<char>, r: Seq<char>, y: Seq<char>, q: Seq<char>)
    requires
        free_of(x, c),
        free_of(y, c),
        x + seq![c] + r == y + seq![c] + q,
    ensures
        x == y,
        r == q,
{
    let l = x + seq![c] + r;
    let m = y + seq![c] + q;
    if x.len() < y.len() {
        assert(l[x.len() as int] == c);
        assert(m[x.len() as int] == y[x.len() as int]);
    }
    if y.len() < x.len() {
        assert(m[y.len() as int] == c);
        assert(l[y.len() as int] == x[y.len() as int]);
    }
    assert(x =~= l.subrange(0, x.len() as int));
    assert(y =~= m.subrange(0, y.len() as int));
    assert(r =~= l.subrange(x.len() as int + 1, l.len() as int));
    assert(q =~= m.subrange(y.len() as int + 1, m.len() as int));
}

/// A text is cut in one way only at the last occurrence of a character.
pub proof fn lemma_cut_at_last(c: char, p: Seq<char>, x: Seq<char>, q: Seq<char>, y: Seq<char>)
    requires
        free_of(x, c),
        free_of(y, c),
        p + seq![c] + x == q + seq![c] + y,
    ensures
        p == q,
        x == y,
{
    let l = p + seq![c] + x;
    let m = q + seq![c] + y;
    assert(l.len() == p.len() + 1 + x.len());
    assert(m.len() == q.len() + 1 + y.len());
    if x.len() < y.len() {
        assert(l[p.len() as int] == c);
        assert(m[p.len() as int] == y[p.len() - q.len() - 1]);
    }
    if y.len() < x.len() {
        assert(m[q.len() as int] == c);
        assert(l[q.len() as int] == x[q.len() - p.len() - 1]);
    }
    assert(p =~= l.subrange(0, p.len() as int));
    assert(q =~= m.subrange(0, q.len() as int));
    assert(x =~= l.subrange(p.len() as int + 1, l.len() as int));
    assert(y =~= m.subrange(q.len() as int + 1, m.len() as int));
}

/// Texts that are equal behind the same prefix are equal.
pub proof fn lemma_same_prefix(p: Seq<char>, x: Seq<char>, y: Seq<char>)
    requires
        p + x == p + y,
    ensures
        x == y,
{
    assert(x =~= (p + x).subrange(p.len() as int, (p + x).len() as int));
    assert(y =~= (p + y).subrange(p.len() as int, (p + y).len() as int));
}

/// A lower bound is written as nothing, or from `>` on and without a comma
/// or a bar.
pub proof fn lemma_lower_text_shape<T: Version>(b: Bound<T>)
    ensures
        lower_text(b).len() > 0 ==> lower_text(b)[0] == '>',
        free_of(lower_text(b), ','),
        free_of(lower_text(b), '|'),
{
    match b {
        Bound::Inclusive(v) => {
            T::lemma_text_plain(v);
        },
        Bound::Exclusive(v) => {
            T::lemma_text_plain(v);
        },
        _ => {},
    }
}

/// An upper bound is written as nothing, or from `<` on and without a comma
/// or a bar.
pub proof fn lemma_upper_text_shape<T: Version>(b: Bound<T>)
    ensures
        upper_text(b).len() > 0 ==> upper_text(b)[0] == '<',
        free_of(upper_text(b), ','),
        free_of(upper_text(b), '|'),
{
    match b {
        Bound::Inclusive(v) => {
            T::lemma_text_plain(v);
        },
        Bound::Exclusive(v) => {
            T::lemma_text_plain(v);
        },
        _ => {},
    }
}

/// Lower bounds that are written alike are the same bound.
pub proof fn lemma_lower_text_injective<T: Version>(x: Bound<T>, y: Bound<T>)
    requires
        lower_text(x) == lower_text(y),
    ensures
        x == y,
{
    let s = lower_text(x);
    let t = lower_text(y);
    match x {
        Bound::Inclusive(u) => {
            T::lemma_text_plain(u);
            assert(s.len() == 2 + u.text().len());
            assert(s[1] == '=');
        },
        Bound::Exclusive(u) => {
            T::lemma_text_plain(u);
            assert(s.len() == 1 + u.text().len());
            assert(s[1] == u.text()[0]);
        },
        Bound::UnboundedAbove => {
            assert(s.len() == 2);
            assert(s[1] == '*');
        },
        Bound::UnboundedBelow => {
            assert(s.len() == 0);
        },
    }
    match y {
        Bound::Inclusive(v) => {
            T::lemma_text_plain(v);
            assert(t.len() == 2 + v.text().len());
            assert(t[1] == '=');
        },
        Bound::Exclusive(v) => {
            T::lemma_text_plain(v);
            assert(t.len() == 1 + v.text().len());
            assert(t[1] == v.text()[0]);
        },
        Bound::UnboundedAbove => {
            assert(t.len() == 2);
            assert(t[1] == '*');
        },
        Bound::UnboundedBelow => {
            assert(t.len() == 0);
        },
    }
    match (x, y) {
        (Bound::Inclusive(u), Bound::Inclusive(v)) => {
            lemma_same_prefix(seq!['>', '='], u.text(), v.text());
            T::lemma_text_injective(u, v);
        },
        (Bound::Exclusive(u), Bound::Exclusive(v)) => {
            lemma_same_prefix(seq!['>'], u.text(), v.text());
            T::lemma_text_injective(u, v);
        },
        _ => {},
    }
}

/// Upper bounds that are written alike are the same bound.
pub proof fn lemma_upper_text_injective<T: Version>(x: Bound<T>, y: Bound<T>)
    requires
        upper_text(x) == upper_text(y),
    ensures
        x == y,
{
    let s = upper_text(x);
    let t = upper_text(y);
    match x {
        Bound::Inclusive(u) => {
            T::lemma_text_plain(u);
            assert(s.len() == 2 + u.text().len());
            assert(s[1] == '=');
        },
        Bound::Exclusive(u) => {
            T::lemma_text_plain(u);
            assert(s.len() == 1 + u.text().len());
            assert(s[1] == u.text()[0]);
        },
        Bound::UnboundedBelow => {
            assert(s.len() == 2);
            assert(s[1] == '*');
        },
        Bound::UnboundedAbove => {
            assert(s.len() == 0);
        },
    }
    match y {
        Bound::Inclusive(v) => {
            T::lemma_text_plain(v);
            assert(t.len() == 2 + v.text().len());
            assert(t[1] == '=');
        },
        Bound::Exclusive(v) => {
            T::lemma_text_plain(v);
            assert(t.len() == 1 + v.text().len());
            assert(t[1] == v.text()[0]);
        },
        Bound::UnboundedBelow => {
            assert(t.len() == 2);
            assert(t[1] == '*');
        },
        Bound::UnboundedAbove => {
            assert(t.len() == 0);
        },
    }
    match (x, y) {
        (Bound::Inclusive(u), Bound::Inclusive(v)) => {
            lemma_same_prefix(seq!['<', '='], u.text(), v.text());
            T::lemma_text_injective(u, v);
        },
        (Bound::Exclusive(u), Bound::Exclusive(v)) => {
            lemma_same_prefix(seq!['<'], u.text(), v.text());
            T::lemma_text_injective(u, v);
        },
        _ => {},
    }
}

/// An interval is written with at least one character, from `*`, `<` or `>`
/// on, and without a bar.
pub proof fn lemma_interval_text_shape<T: Version>(x: Interval<T>)
    ensures
        interval_text(x).len() > 0,
        interval_text(x)[0] == '*' || interval_text(x)[0] == '<' || interval_text(x)[0] == '>',
        free_of(interval_text(x), '|'),
{
    lemma_lower_text_shape(x.lo);
    lemma_upper_text_shape(x.hi);
}

/// Intervals that are written alike are the same interval.
pub proof fn lemma_interval_text_injective<T: Version>(x: Interval<T>, y: Interval<T>)
    requires
        interval_text(x) == interval_text(y),
    ensures
        x == y,
{
    let xl = lower_text(x.lo);
    let xu = upper_text(x.hi);
    let yl = lower_text(y.lo);
    let yu = upper_text(y.hi);
    lemma_lower_text_shape(x.lo);
    lemma_upper_text_shape(x.hi);
    lemma_lower_text_shape(y.lo);
    lemma_upper_text_shape(y.hi);
    let s = interval_text(x);
    let t = interval_text(y);
    // Which of the two bounds are written shows in the text: in its first
    // character, and in whether it holds a comma.
    if xl.len() > 0 && xu.len() > 0 {
        assert(s[xl.len() as int] == ',');
        assert(s[0] == '>');
    }
    if yl.len() > 0 && yu.len() > 0 {
        assert(t[yl.len() as int] == ',');
        assert(t[0] == '>');
    }
    if xl.len() > 0 && xu.len() > 0 && yl.len() > 0 && yu.len() > 0 {
        assert(s =~= xl + seq![','] + (seq![' '] + xu));
        assert(t =~= yl + seq![','] + (seq![' '] + yu));
        lemma_cut_at_first(',', xl, seq![' '] + xu, yl, seq![' '] + yu);
        lemma_same_prefix(seq![' '], xu, yu);
    }
    assert(xl == yl);
    assert(xu == yu);
    lemma_lower_text_injective(x.lo, y.lo);
    lemma_upper_text_injective(x.hi, y.hi);
}

/// One interval or more are written from `*`, `<` or `>` on.
pub proof fn lemma_intervals_text_shape<T: Version>(s: Seq<Interval<T>>)
    requires
        s.len() > 0,
    ensures
        intervals_text(s).len() > 0,
        intervals_text(s)[0] == '*' || intervals_text(s)[0] == '<' || intervals_text(s)[0] == '>',
    decreases s.len(),
{
    if s.len() == 1 {
        lemma_interval_text_shape(s[0]);
    } else {
        lemma_intervals_text_shape(s.drop_last());
    }
}

/// Sequences of one interval or more that are written alike are the same
/// sequence.
pub proof fn lemma_intervals_text_injective<T: Version>(a: Seq<Interval<T>>, b: Seq<Interval<T>>)
    requires
        a.len() > 0,
        b.len() > 0,
        intervals_text(a) == intervals_text(b),
    ensures
        a == b,
    decreases a.len(),
{
    let x = interval_text(a.last());
    let y = interval_text(b.last());
    lemma_interval_text_shape(a.last());
    lemma_interval_text_shape(b.last());
    let p = intervals_text(a.drop_last());
    let q = intervals_text(b.drop_last());
    if a.len() > 1 {
        assert(intervals_text(a) =~= (p + seq![' ']) + seq!['|'] + (seq![' '] + x));
        assert(intervals_text(a)[p.len() as int + 1] == '|');
    }
    if b.len() > 1 {
        assert(intervals_text(b) =~= (q + seq![' ']) + seq!['|'] + (seq![' '] + y));
        assert(intervals_text(b)[q.len() as int + 1] == '|');
    }
    if a.len() == 1 && b.len() == 1 {
        lemma_interval_text_injective(a[0], b[0]);
        assert(a =~= b);
    } else if a.len() > 1 && b.len() > 1 {
        lemma_cut_at_last('|', p + seq![' '], seq![' '] + x, q + seq![' '], seq![' '] + y);
        lemma_same_prefix(seq![' '], x, y);
        assert(p =~= (p + seq![' ']).drop_last());
        assert(q =~= (q + seq![' ']).drop_last());
        lemma_interval_text_injective(a.last(), b.last());
        lemma_intervals_text_injective(a.drop_last(), b.drop_last());
        assert(a =~= a.drop_last().push(a.last()));
        assert(b =~= b.drop_last().push(b.last()));
    }
}

/// Sequences of intervals that are written alike are the same sequence.
pub proof fn lemma_ranges_text_injective<T: Version>(a: Seq<Interval<T>>, b: Seq<Interval<T>>)
    requires
        ranges_text(a) == ranges_text(b),
    ensures
        a == b,
{
    if a.len() > 0 {
        lemma_intervals_text_shape(a);
    }
    if b.len() > 0 {
        lemma_intervals_text_shape(b);
    }
    if a.len() > 0 && b.len() > 0 {
        lemma_intervals_text_injective(a, b);
    } else {
        assert(ranges_text(a)[0] == ranges_text(b)[0]);
        assert(a =~= b);
    }
}

impl<T: Version> Ranges<T> {
    /// Range sets that are written alike are made of the same intervals.
    pub proof fn lemma_text_tells_set(a: Self, b: Self)
        requires
            ranges_text(a.intervals()) == ranges_text(b.intervals()),
        ensures
            a.intervals() == b.intervals(),
    {
        lemma_ranges_text_injective(a.intervals(), b.intervals());
    }
}

} // verus!
