//! The interface of a set of versions.
//!
//! An implementation supplies the versions, the two constructors `empty` and
//! `singleton`, the operations `complement` and `intersection`, the
//! membership test `contains`, and a way to write a set out as text. The
//! remaining operations are derived from these by the laws of sets. They may
//! be overridden for speed, and the contract of each holds for an override as
//! it does for the default.
//!
//! Equality has to mean what it means for sets: two well-formed values are
//! equal exactly when they hold the same versions. An implementation
//! therefore keeps its values in a canonical form and proves
//! `lemma_equality`. Its text has to tell one set from another, which it
//! proves in `lemma_text`.

use crate::notation::lemma_ranges_text_injective;
use crate::ranges::Ranges;
use crate::render::ranges_text;
use crate::version::Version;
use vstd::prelude::*;
use vstd::std_specs::cmp::PartialEqSpec;

verus! {

/// De Morgan: what is left out of both complements is what either set holds.
pub proof fn lemma_union_by_complements<A>(a: Set<A>, b: Set<A>)
    ensures
        a.complement().intersect(b.complement()).complement() == a.union(b),
{
    assert(a.complement().intersect(b.complement()).complement() =~= a.union(b));
}

/// Two sets are disjoint exactly when their intersection is empty.
pub proof fn lemma_disjoint_by_intersection<A>(a: Set<A>, b: Set<A>)
    ensures
        a.disjoint(b) <==> a.intersect(b) == Set::<A>::empty(),
{
    if a.disjoint(b) {
        assert(a.intersect(b) =~= Set::<A>::empty());
    }
    if a.intersect(b) == Set::<A>::empty() {
        assert forall|x: A| a.contains(x) implies !b.contains(x) by {
            assert(!a.intersect(b).contains(x));
        }
    }
}

/// A set lies within another exactly when intersecting with the other
/// leaves it unchanged.
pub proof fn lemma_subset_by_intersection<A>(a: Set<A>, b: Set<A>)
    ensures
        a.subset_of(b) <==> a.intersect(b) == a,
{
    if a.subset_of(b) {
        assert(a.intersect(b) =~= a);
    }
    if a.intersect(b) == a {
        assert forall|x: A| a.contains(x) implies b.contains(x) by {
            assert(a.intersect(b).contains(x));
        }
    }
}

/// Sets of versions.
pub trait VersionSet: Sized + Clone + Eq {
    /// The versions that the sets are made of.
    type V;

    /// Well-formedness of a value. Every constructor and operation returns a
    /// well-formed value, and every operation asks for well-formed operands.
    spec fn wf(&self) -> bool;

    /// The versions in the set.
    spec fn versions(&self) -> Set<Self::V>;

    /// How the set is written in text.
    spec fn text(&self) -> Seq<char>;

    /// `==` decides equality of sets: well-formed values are equal exactly
    /// when they hold the same versions.
    proof fn lemma_equality(a: &Self, b: &Self)
        requires
            a.wf(),
            b.wf(),
        ensures
            Self::obeys_eq_spec(),
            a.eq_spec(b) <==> a.versions() == b.versions(),
    ;

    /// The text tells the set: well-formed values that are written alike
    /// hold the same versions.
    proof fn lemma_text(a: &Self, b: &Self)
        requires
            a.wf(),
            b.wf(),
            a.text() == b.text(),
        ensures
            a.versions() == b.versions(),
    ;

    /// The set that holds no version.
    fn empty() -> (r: Self)
        ensures
            r.wf(),
            r.versions() == Set::<Self::V>::empty(),
    ;

    /// The set that holds the version `v` and no other.
    fn singleton(v: Self::V) -> (r: Self)
        ensures
            r.wf(),
            r.versions() == set![v],
    ;

    /// The set of the versions that `self` does not hold.
    fn complement(&self) -> (r: Self)
        requires
            self.wf(),
        ensures
            r.wf(),
            r.versions() == self.versions().complement(),
    ;

    /// The set of the versions that both `self` and `other` hold.
    fn intersection(&self, other: &Self) -> (r: Self)
        requires
            self.wf(),
            other.wf(),
        ensures
            r.wf(),
            r.versions() == self.versions().intersect(other.versions()),
    ;

    /// Whether the set holds the version `v`.
    fn contains(&self, v: &Self::V) -> (b: bool)
        requires
            self.wf(),
        ensures
            b == self.versions().contains(*v),
    ;

    /// Writes the set out, for messages and traces.
    fn to_text(&self) -> (s: String)
        ensures
            s@ == self.text(),
    ;

    /// The set that holds every version: the complement of the empty set.
    fn full() -> (r: Self)
        ensures
            r.wf(),
            r.versions() == Set::<Self::V>::full(),
    {
        let r = Self::empty().complement();
        assert(r.versions() =~= Set::<Self::V>::full());
        r
    }

    /// The set of the versions that `self` or `other` holds: the complement
    /// of what the two complements share.
    fn union(&self, other: &Self) -> (r: Self)
        requires
            self.wf(),
            other.wf(),
        ensures
            r.wf(),
            r.versions() == self.versions().union(other.versions()),
    {
        proof {
            lemma_union_by_complements(self.versions(), other.versions());
        }
        self.complement().intersection(&other.complement()).complement()
    }

    /// Whether `self` and `other` have no version in common: whether their
    /// intersection is the empty set.
    fn is_disjoint(&self, other: &Self) -> (b: bool)
        requires
            self.wf(),
            other.wf(),
        ensures
            b == self.versions().disjoint(other.versions()),
    {
        let both = self.intersection(other);
        let none = Self::empty();
        proof {
            Self::lemma_equality(&both, &none);
            lemma_disjoint_by_intersection(self.versions(), other.versions());
        }
        both == none
    }

    /// Whether `other` holds every version that `self` holds: whether
    /// intersecting with `other` leaves `self` as it is.
    fn subset_of(&self, other: &Self) -> (b: bool)
        requires
            self.wf(),
            other.wf(),
        ensures
            b == self.versions().subset_of(other.versions()),
    {
        let both = self.intersection(other);
        proof {
            Self::lemma_equality(self, &both);
            lemma_subset_by_intersection(self.versions(), other.versions());
        }
        self == &both
    }
}

impl<T: Version> VersionSet for Ranges<T> {
    type V = T;

    open spec fn wf(&self) -> bool {
        Ranges::wf(self)
    }

    open spec fn versions(&self) -> Set<T> {
        self@
    }

    open spec fn text(&self) -> Seq<char> {
        ranges_text(self.intervals())
    }

    proof fn lemma_equality(a: &Self, b: &Self) {
        if a@ == b@ {
            Ranges::lemma_canonical(*a, *b);
        }
    }

    proof fn lemma_text(a: &Self, b: &Self) {
        lemma_ranges_text_injective(a.intervals(), b.intervals());
    }

    fn empty() -> (r: Self) {
        Ranges::empty()
    }

    fn singleton(v: Self::V) -> (r: Self) {
        Ranges::singleton(v)
    }

    fn complement(&self) -> (r: Self) {
        Ranges::complement(self)
    }

    fn intersection(&self, other: &Self) -> (r: Self) {
        Ranges::intersection(self, other)
    }

    fn contains(&self, v: &Self::V) -> (b: bool) {
        Ranges::contains(self, v)
    }

    fn to_text(&self) -> (s: String) {
        Ranges::to_text(self)
    }

    fn full() -> (r: Self) {
        Ranges::full()
    }

    fn union(&self, other: &Self) -> (r: Self) {
        Ranges::union(self, other)
    }

    fn is_disjoint(&self, other: &Self) -> (b: bool) {
        Ranges::is_disjoint(self, other)
    }

    fn subset_of(&self, other: &Self) -> (b: bool) {
        Ranges::subset_of(self, other)
    }
}

} // verus!
