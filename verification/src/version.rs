//! The ordered domain that version sets range over.

use vstd::prelude::*;
use vstd::string::StringExecFns;

verus! {

/// A totally ordered, bounded, discrete domain of versions.
///
/// Every version has a `rank`, its position in the order. Distinct versions
/// have distinct ranks, all ranks lie between `floor()` and `ceiling()`, and
/// `successor` steps from one version to the one right after it. Knowing
/// which versions are adjacent is what lets a set of versions have a single
/// normal form.
pub trait Version: Copy {
    /// Position of this version in the order.
    spec fn rank(self) -> int;

    /// Rank of the least version.
    spec fn floor() -> int;

    /// Rank of the greatest version.
    spec fn ceiling() -> int;

    /// The least version.
    spec fn least() -> Self;

    /// How this version is written in text.
    spec fn text(self) -> Seq<char>;

    /// Distinct versions have distinct ranks.
    proof fn lemma_rank_injective(a: Self, b: Self)
        requires
            a.rank() == b.rank(),
        ensures
            a == b,
    ;

    /// Every rank lies between the two ends of the domain, and the least
    /// version sits at the lower end.
    proof fn lemma_rank_bounds(v: Self)
        ensures
            Self::floor() <= v.rank() <= Self::ceiling(),
            Self::least().rank() == Self::floor(),
    ;

    /// A version is written with at least one character, and with none that
    /// the notation of sets keeps for itself.
    proof fn lemma_text_plain(v: Self)
        ensures
            v.text().len() > 0,
            forall|i: int| 0 <= i < v.text().len() ==> is_plain(#[trigger] v.text()[i]),
    ;

    /// Distinct versions are written differently.
    proof fn lemma_text_injective(a: Self, b: Self)
        requires
            a.text() == b.text(),
        ensures
            a == b,
    ;

    /// Whether `self` comes strictly before `other`.
    fn precedes(&self, other: &Self) -> (b: bool)
        ensures
            b == (self.rank() < other.rank()),
    ;

    /// Whether `self` is the least version.
    fn is_least(&self) -> (b: bool)
        ensures
            b == (self.rank() == Self::floor()),
    ;

    /// The version right after `self`, or `None` for the greatest version.
    fn successor(&self) -> (next: Option<Self>)
        ensures
            match next {
                Some(n) => n.rank() == self.rank() + 1,
                None => self.rank() == Self::ceiling(),
            },
    ;

    /// Writes the version out.
    fn to_text(&self) -> (s: String)
        ensures
            s@ == self.text(),
    ;
}

/// Whether the text of a version may hold the character: whether the
/// notation of sets leaves it free.
pub open spec fn is_plain(c: char) -> bool {
    c != ' ' && c != ',' && c != '|' && c != '<' && c != '>' && c != '=' && c != '*' && c != '∅'
}

/// The character for a single decimal digit.
pub open spec fn digit(d: nat) -> char {
    if d == 0 {
        '0'
    } else if d == 1 {
        '1'
    } else if d == 2 {
        '2'
    } else if d == 3 {
        '3'
    } else if d == 4 {
        '4'
    } else if d == 5 {
        '5'
    } else if d == 6 {
        '6'
    } else if d == 7 {
        '7'
    } else if d == 8 {
        '8'
    } else {
        '9'
    }
}

/// Decimal notation of a natural number, most significant digit first and
/// without leading zeros.
pub open spec fn decimal(n: nat) -> Seq<char>
    decreases n,
{
    if n < 10 {
        seq![digit(n)]
    } else {
        decimal(n / 10).push(digit(n % 10))
    }
}

/// Decimal notation is never empty and holds digits only.
pub proof fn lemma_decimal_plain(n: nat)
    ensures
        decimal(n).len() > 0,
        forall|i: int| 0 <= i < decimal(n).len() ==> is_plain(#[trigger] decimal(n)[i]),
    decreases n,
{
    if n >= 10 {
        lemma_decimal_plain(n / 10);
    }
}

/// Numbers with the same decimal notation are the same number.
pub proof fn lemma_decimal_injective(n: nat, m: nat)
    requires
        decimal(n) == decimal(m),
    ensures
        n == m,
    decreases n,
{
    lemma_decimal_plain(n / 10);
    lemma_decimal_plain(m / 10);
    if n >= 10 {
        assert(decimal(n).len() == decimal(n / 10).len() + 1);
        if m < 10 {
            assert(decimal(m).len() == 1);
        }
        assert(decimal(n).last() == digit(n % 10));
        assert(decimal(m).last() == digit(m % 10));
        assert(decimal(n).drop_last() =~= decimal(n / 10));
        assert(decimal(m).drop_last() =~= decimal(m / 10));
        lemma_decimal_injective(n / 10, m / 10);
    } else {
        assert(decimal(n).len() == 1);
        if m >= 10 {
            assert(decimal(m).len() == decimal(m / 10).len() + 1);
        }
        assert(decimal(n)[0] == digit(n));
        assert(decimal(m)[0] == digit(m));
    }
}

fn digit_text(d: u64) -> (s: &'static str)
    requires
        d < 10,
    ensures
        s@ == seq![digit(d as nat)],
{
    proof {
        reveal_strlit("0");
        reveal_strlit("1");
        reveal_strlit("2");
        reveal_strlit("3");
        reveal_strlit("4");
        reveal_strlit("5");
        reveal_strlit("6");
        reveal_strlit("7");
        reveal_strlit("8");
        reveal_strlit("9");
    }
    let s = if d == 0 {
        "0"
    } else if d == 1 {
        "1"
    } else if d == 2 {
        "2"
    } else if d == 3 {
        "3"
    } else if d == 4 {
        "4"
    } else if d == 5 {
        "5"
    } else if d == 6 {
        "6"
    } else if d == 7 {
        "7"
    } else if d == 8 {
        "8"
    } else {
        "9"
    };
    assert(s@ =~= seq![digit(d as nat)]);
    s
}

/// Writes a number in decimal notation.
pub fn decimal_text(n: u64) -> (s: String)
    ensures
        s@ == decimal(n as nat),
    decreases n,
{
    if n < 10 {
        String::from_str(digit_text(n))
    } else {
        let mut s = decimal_text(n / 10);
        s.append(digit_text(n % 10));
        assert(s@ =~= decimal(n as nat));
        s
    }
}

impl Version for u64 {
    open spec fn rank(self) -> int {
        self as int
    }

    open spec fn floor() -> int {
        0
    }

    open spec fn ceiling() -> int {
        u64::MAX as int
    }

    open spec fn least() -> Self {
        0u64
    }

    open spec fn text(self) -> Seq<char> {
        decimal(self as nat)
    }

    proof fn lemma_rank_injective(a: Self, b: Self) {
    }

    proof fn lemma_rank_bounds(v: Self) {
    }

    proof fn lemma_text_plain(v: Self) {
        lemma_decimal_plain(v as nat);
    }

    proof fn lemma_text_injective(a: Self, b: Self) {
        lemma_decimal_injective(a as nat, b as nat);
    }

    fn precedes(&self, other: &Self) -> (b: bool) {
        *self < *other
    }

    fn is_least(&self) -> (b: bool) {
        *self == 0
    }

    fn successor(&self) -> (next: Option<Self>) {
        if *self == u64::MAX {
            None
        } else {
            Some(*self + 1)
        }
    }

    fn to_text(&self) -> (s: String) {
        decimal_text(*self)
    }
}

impl Version for u32 {
    open spec fn rank(self) -> int {
        self as int
    }

    open spec fn floor() -> int {
        0
    }

    open spec fn ceiling() -> int {
        u32::MAX as int
    }

    open spec fn least() -> Self {
        0u32
    }

    open spec fn text(self) -> Seq<char> {
        decimal(self as nat)
    }

    proof fn lemma_rank_injective(a: Self, b: Self) {
    }

    proof fn lemma_rank_bounds(v: Self) {
    }

    proof fn lemma_text_plain(v: Self) {
        lemma_decimal_plain(v as nat);
    }

    proof fn lemma_text_injective(a: Self, b: Self) {
        lemma_decimal_injective(a as nat, b as nat);
    }

    fn precedes(&self, other: &Self) -> (b: bool) {
        *self < *other
    }

    fn is_least(&self) -> (b: bool) {
        *self == 0
    }

    fn successor(&self) -> (next: Option<Self>) {
        if *self == u32::MAX {
            None
        } else {
            Some(*self + 1)
        }
    }

    fn to_text(&self) -> (s: String) {
        decimal_text(*self as u64)
    }
}

} // verus!
