//! The algebra of version sets.
//!
//! The laws hold for every implementation of `VersionSet`. Each is stated of
//! the values that the operations return: a relation such as
//! `is_complement_of(c, a)` says of `c` what `complement` promises of its
//! result for `a`. Since well-formed values are equal exactly when they hold
//! the same versions, each law is an equality of values, not only of the
//! versions that they hold.

use crate::version_set::VersionSet;
use vstd::prelude::*;
use vstd::std_specs::cmp::PartialEqSpec;

verus! {

/// `e` is what `empty` returns.
pub open spec fn is_empty_set<S: VersionSet>(e: S) -> bool {
    e.wf() && e.versions() == Set::<S::V>::empty()
}

/// `f` is what `full` returns.
pub open spec fn is_full_set<S: VersionSet>(f: S) -> bool {
    f.wf() && f.versions() == Set::<S::V>::full()
}

/// `s` is what `singleton` returns for `v`.
pub open spec fn is_singleton_of<S: VersionSet>(s: S, v: S::V) -> bool {
    s.wf() && s.versions() == set![v]
}

/// `c` is what `complement` returns for `a`.
pub open spec fn is_complement_of<S: VersionSet>(c: S, a: S) -> bool {
    c.wf() && c.versions() == a.versions().complement()
}

/// `r` is what `intersection` returns for `a` and `b`.
pub open spec fn is_intersection_of<S: VersionSet>(r: S, a: S, b: S) -> bool {
    r.wf() && r.versions() == a.versions().intersect(b.versions())
}

/// `r` is what `union` returns for `a` and `b`.
pub open spec fn is_union_of<S: VersionSet>(r: S, a: S, b: S) -> bool {
    r.wf() && r.versions() == a.versions().union(b.versions())
}

/// Values that `==` tells apart hold different versions: well-formed values
/// with the same versions are equal, however they were built.
pub proof fn lemma_same_versions_equal<S: VersionSet>(a: S, b: S)
    requires
        a.wf(),
        b.wf(),
        a.versions() == b.versions(),
    ensures
        S::obeys_eq_spec(),
        a.eq_spec(&b),
{
    S::lemma_equality(&a, &b);
}

/// Well-formed values that are written alike are equal.
pub proof fn lemma_same_text_equal<S: VersionSet>(a: S, b: S)
    requires
        a.wf(),
        b.wf(),
        a.text() == b.text(),
    ensures
        a.eq_spec(&b),
{
    S::lemma_text(&a, &b);
    S::lemma_equality(&a, &b);
}

/// Complementing twice gives the set back.
pub proof fn lemma_complement_involution<S: VersionSet>(a: S, c: S, cc: S)
    requires
        a.wf(),
        is_complement_of(c, a),
        is_complement_of(cc, c),
    ensures
        cc.eq_spec(&a),
{
    assert(cc.versions() =~= a.versions());
    S::lemma_equality(&cc, &a);
}

/// The union is the complement of the intersection of the complements.
pub proof fn lemma_union_de_morgan<S: VersionSet>(a: S, b: S, u: S, ca: S, cb: S, m: S, d: S)
    requires
        a.wf(),
        b.wf(),
        is_union_of(u, a, b),
        is_complement_of(ca, a),
        is_complement_of(cb, b),
        is_intersection_of(m, ca, cb),
        is_complement_of(d, m),
    ensures
        u.eq_spec(&d),
{
    assert(u.versions() =~= d.versions());
    S::lemma_equality(&u, &d);
}

/// Intersecting a set with itself gives the set.
pub proof fn lemma_intersection_idempotent<S: VersionSet>(a: S, r: S)
    requires
        a.wf(),
        is_intersection_of(r, a, a),
    ensures
        r.eq_spec(&a),
{
    assert(r.versions() =~= a.versions());
    S::lemma_equality(&r, &a);
}

/// Uniting a set with itself gives the set.
pub proof fn lemma_union_idempotent<S: VersionSet>(a: S, r: S)
    requires
        a.wf(),
        is_union_of(r, a, a),
    ensures
        r.eq_spec(&a),
{
    assert(r.versions() =~= a.versions());
    S::lemma_equality(&r, &a);
}

/// Intersecting with the full set changes nothing.
pub proof fn lemma_intersection_with_full<S: VersionSet>(a: S, f: S, r: S)
    requires
        a.wf(),
        is_full_set(f),
        is_intersection_of(r, a, f),
    ensures
        r.eq_spec(&a),
{
    assert(r.versions() =~= a.versions());
    S::lemma_equality(&r, &a);
}

/// Intersecting with the empty set gives the empty set.
pub proof fn lemma_intersection_with_empty<S: VersionSet>(a: S, e: S, r: S)
    requires
        a.wf(),
        is_empty_set(e),
        is_intersection_of(r, a, e),
    ensures
        r.eq_spec(&e),
{
    assert(r.versions() =~= e.versions());
    S::lemma_equality(&r, &e);
}

/// Uniting with the empty set changes nothing.
pub proof fn lemma_union_with_empty<S: VersionSet>(a: S, e: S, r: S)
    requires
        a.wf(),
        is_empty_set(e),
        is_union_of(r, a, e),
    ensures
        r.eq_spec(&a),
{
    assert(r.versions() =~= a.versions());
    S::lemma_equality(&r, &a);
}

/// Uniting with the full set gives the full set.
pub proof fn lemma_union_with_full<S: VersionSet>(a: S, f: S, r: S)
    requires
        a.wf(),
        is_full_set(f),
        is_union_of(r, a, f),
    ensures
        r.eq_spec(&f),
{
    assert(r.versions() =~= f.versions());
    S::lemma_equality(&r, &f);
}

/// The order of the operands of an intersection does not matter.
pub proof fn lemma_intersection_commutative<S: VersionSet>(a: S, b: S, ab: S, ba: S)
    requires
        a.wf(),
        b.wf(),
        is_intersection_of(ab, a, b),
        is_intersection_of(ba, b, a),
    ensures
        ab.eq_spec(&ba),
{
    assert(ab.versions() =~= ba.versions());
    S::lemma_equality(&ab, &ba);
}

/// Intersections may be grouped either way.
pub proof fn lemma_intersection_associative<S: VersionSet>(
    a: S,
    b: S,
    c: S,
    ab: S,
    bc: S,
    left: S,
    right: S,
)
    requires
        a.wf(),
        b.wf(),
        c.wf(),
        is_intersection_of(ab, a, b),
        is_intersection_of(bc, b, c),
        is_intersection_of(left, ab, c),
        is_intersection_of(right, a, bc),
    ensures
        left.eq_spec(&right),
{
    assert(left.versions() =~= right.versions());
    S::lemma_equality(&left, &right);
}

/// The order of the operands of a union does not matter.
pub proof fn lemma_union_commutative<S: VersionSet>(a: S, b: S, ab: S, ba: S)
    requires
        a.wf(),
        b.wf(),
        is_union_of(ab, a, b),
        is_union_of(ba, b, a),
    ensures
        ab.eq_spec(&ba),
{
    assert(ab.versions() =~= ba.versions());
    S::lemma_equality(&ab, &ba);
}

/// Unions may be grouped either way.
pub proof fn lemma_union_associative<S: VersionSet>(
    a: S,
    b: S,
    c: S,
    ab: S,
    bc: S,
    left: S,
    right: S,
)
    requires
        a.wf(),
        b.wf(),
        c.wf(),
        is_union_of(ab, a, b),
        is_union_of(bc, b, c),
        is_union_of(left, ab, c),
        is_union_of(right, a, bc),
    ensures
        left.eq_spec(&right),
{
    assert(left.versions() =~= right.versions());
    S::lemma_equality(&left, &right);
}

/// A singleton holds its version and no other.
pub proof fn lemma_singleton_membership<S: VersionSet>(s: S, v: S::V, w: S::V)
    requires
        is_singleton_of(s, v),
    ensures
        s.versions().contains(v),
        w != v ==> !s.versions().contains(w),
{
}

/// A set that lies within `b` lies within its own intersection with `b`.
pub proof fn lemma_subset_of_own_intersection<S: VersionSet>(a: S, b: S, m: S)
    requires
        a.wf(),
        b.wf(),
        a.versions().subset_of(b.versions()),
        is_intersection_of(m, a, b),
    ensures
        a.versions().subset_of(m.versions()),
{
}

/// An intersection lies within each of its operands.
pub proof fn lemma_intersection_within_operands<S: VersionSet>(a: S, b: S, m: S)
    requires
        a.wf(),
        b.wf(),
        is_intersection_of(m, a, b),
    ensures
        m.versions().subset_of(a.versions()),
        m.versions().subset_of(b.versions()),
{
}

/// A set and its complement have no version in common.
pub proof fn lemma_disjoint_from_complement<S: VersionSet>(a: S, c: S)
    requires
        a.wf(),
        is_complement_of(c, a),
    ensures
        a.versions().disjoint(c.versions()),
{
}

} // verus!
