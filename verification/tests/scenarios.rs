use version_set::{Bound, Interval, Ranges, VersionSet};

fn between(lo: u64, hi: u64) -> Ranges<u64> {
    Ranges::from_bounds(Bound::Inclusive(lo), Bound::Exclusive(hi))
}

#[test]
fn intersection_of_overlapping_intervals() {
    let got = between(1, 3).intersection(&between(2, 4));
    assert_eq!(got, between(2, 3));
    assert_eq!(
        got.to_intervals(),
        vec![Interval { lo: Bound::Inclusive(2), hi: Bound::Exclusive(3) }]
    );
}

#[test]
fn complement_of_an_interval_is_its_two_sides() {
    let got = between(2, 4).complement();
    assert_eq!(
        got.to_intervals(),
        vec![
            Interval { lo: Bound::UnboundedBelow, hi: Bound::Exclusive(2) },
            Interval { lo: Bound::Inclusive(4), hi: Bound::UnboundedAbove },
        ]
    );
    let below = Ranges::from_bounds(Bound::UnboundedBelow, Bound::Exclusive(2u64));
    let above = Ranges::from_bounds(Bound::Inclusive(4u64), Bound::UnboundedAbove);
    assert_eq!(got, below.union(&above));
}

#[test]
fn union_of_a_singleton_with_itself() {
    let two = Ranges::<u64>::singleton(2);
    assert_eq!(two.union(&Ranges::singleton(2)), Ranges::singleton(2));
}

#[test]
fn separate_intervals_are_disjoint() {
    assert!(between(1, 2).is_disjoint(&between(3, 4)));
}

#[test]
fn overlapping_intervals_are_not_disjoint() {
    assert!(!between(1, 3).is_disjoint(&between(2, 4)));
}

#[test]
fn singleton_within_interval_is_subset() {
    assert!(Ranges::<u64>::singleton(2).subset_of(&between(1, 3)));
    assert!(!between(1, 3).subset_of(&Ranges::singleton(2)));
}

#[test]
fn touching_intervals_are_disjoint_and_merge() {
    assert!(between(1, 2).is_disjoint(&between(2, 3)));
    assert_eq!(between(1, 2).union(&between(2, 3)), between(1, 3));
}

#[test]
fn trait_methods_agree_with_inherent_ones() {
    let a = between(1, 5);
    let b = between(3, 8);
    assert_eq!(<Ranges<u64> as VersionSet>::empty(), Ranges::empty());
    assert_eq!(<Ranges<u64> as VersionSet>::full(), Ranges::full());
    assert_eq!(<Ranges<u64> as VersionSet>::singleton(7), Ranges::singleton(7));
    assert_eq!(VersionSet::complement(&a), Ranges::complement(&a));
    assert_eq!(VersionSet::intersection(&a, &b), between(3, 5));
    assert_eq!(VersionSet::union(&a, &b), between(1, 8));
    assert!(VersionSet::contains(&a, &4));
    assert!(!VersionSet::contains(&a, &5));
    assert!(!VersionSet::is_disjoint(&a, &b));
    assert!(VersionSet::subset_of(&between(3, 5), &a));
}

fn derived_full<S: VersionSet>() -> S {
    S::empty().complement()
}

fn derived_union<S: VersionSet>(a: &S, b: &S) -> S {
    a.complement().intersection(&b.complement()).complement()
}

#[test]
fn derivations_agree_with_overrides() {
    let a = between(1, 5).union(&between(10, 12));
    let b = between(4, 11);
    assert_eq!(derived_full::<Ranges<u64>>(), Ranges::full());
    assert_eq!(derived_union(&a, &b), a.union(&b));
    assert_eq!(a.union(&b), between(1, 12));
    assert_eq!(a.is_disjoint(&b), a.intersection(&b) == Ranges::empty());
    assert_eq!(a.subset_of(&b), a == a.intersection(&b));
    let inner = between(2, 3);
    assert_eq!(inner.subset_of(&a), inner == inner.intersection(&a));
    assert!(inner.subset_of(&a));
}
