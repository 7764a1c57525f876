use version_set::{Bound, Interval, Ranges};

fn between(lo: u64, hi: u64) -> Ranges<u64> {
    Ranges::from_bounds(Bound::Inclusive(lo), Bound::Exclusive(hi))
}

fn samples() -> Vec<Ranges<u64>> {
    vec![
        Ranges::empty(),
        Ranges::full(),
        Ranges::singleton(0),
        Ranges::singleton(3),
        Ranges::singleton(u64::MAX),
        between(1, 3),
        between(2, 4),
        between(3, 10),
        Ranges::from_bounds(Bound::UnboundedBelow, Bound::Exclusive(5)),
        Ranges::from_bounds(Bound::Inclusive(4), Bound::UnboundedAbove),
        between(1, 2).union(&between(3, 4)),
        between(0, 2).union(&between(5, 8)).union(&between(20, 30)),
        between(2, 6).complement(),
        between(1, 2).union(&between(4, 7)).complement(),
    ]
}

fn probes() -> Vec<u64> {
    let mut out: Vec<u64> = (0..35).collect();
    out.push(u64::MAX - 1);
    out.push(u64::MAX);
    out
}

#[test]
fn complement_is_an_involution() {
    for a in samples() {
        assert_eq!(a.complement().complement(), a);
    }
}

#[test]
fn complement_of_empty_and_full() {
    assert_eq!(Ranges::<u64>::empty().complement(), Ranges::full());
    assert_eq!(Ranges::<u64>::full().complement(), Ranges::empty());
}

#[test]
fn union_is_complement_of_intersected_complements() {
    for a in samples() {
        for b in samples() {
            let derived = a.complement().intersection(&b.complement()).complement();
            assert_eq!(a.union(&b), derived);
        }
    }
}

#[test]
fn intersection_and_union_are_idempotent() {
    for a in samples() {
        assert_eq!(a.intersection(&a), a);
        assert_eq!(a.union(&a), a);
    }
}

#[test]
fn full_and_empty_are_identity_and_absorbing() {
    let full = Ranges::<u64>::full();
    let empty = Ranges::<u64>::empty();
    for a in samples() {
        assert_eq!(a.intersection(&full), a);
        assert_eq!(a.intersection(&empty), empty);
        assert_eq!(a.union(&empty), a);
        assert_eq!(a.union(&full), full);
    }
}

#[test]
fn intersection_and_union_are_commutative() {
    for a in samples() {
        for b in samples() {
            assert_eq!(a.intersection(&b), b.intersection(&a));
            assert_eq!(a.union(&b), b.union(&a));
        }
    }
}

#[test]
fn intersection_and_union_are_associative() {
    for a in samples() {
        for b in samples() {
            for c in samples() {
                assert_eq!(
                    a.intersection(&b).intersection(&c),
                    a.intersection(&b.intersection(&c))
                );
                assert_eq!(a.union(&b).union(&c), a.union(&b.union(&c)));
            }
        }
    }
}

#[test]
fn singleton_holds_its_version_only() {
    for v in probes() {
        let s = Ranges::singleton(v);
        for w in probes() {
            assert_eq!(s.contains(&w), w == v);
        }
    }
}

#[test]
fn operations_agree_with_membership() {
    for a in samples() {
        for v in probes() {
            assert_eq!(a.complement().contains(&v), !a.contains(&v));
        }
        for b in samples() {
            let both = a.intersection(&b);
            let either = a.union(&b);
            for v in probes() {
                assert_eq!(both.contains(&v), a.contains(&v) && b.contains(&v));
                assert_eq!(either.contains(&v), a.contains(&v) || b.contains(&v));
            }
        }
    }
}

#[test]
fn sets_with_the_same_versions_are_equal() {
    // {1, 2, 3} built in four ways.
    let by_bounds = between(1, 4);
    let by_closed_bounds = Ranges::from_bounds(Bound::Exclusive(0u64), Bound::Inclusive(3));
    let by_singletons =
        Ranges::singleton(3).union(&Ranges::singleton(1)).union(&Ranges::singleton(2));
    let by_carving = between(0, 10).intersection(&between(4, 20).complement()).intersection(
        &Ranges::singleton(0).complement(),
    );
    let by_list = Ranges::from_intervals(&vec![
        Interval { lo: Bound::Inclusive(2u64), hi: Bound::Inclusive(3) },
        Interval { lo: Bound::Inclusive(1), hi: Bound::Inclusive(1) },
    ]);
    assert_eq!(by_closed_bounds, by_bounds);
    assert_eq!(by_singletons, by_bounds);
    assert_eq!(by_carving, by_bounds);
    assert_eq!(by_list, by_bounds);
}

#[test]
fn equality_follows_membership_on_samples() {
    for a in samples() {
        for b in samples() {
            let same_members = probes().iter().all(|v| a.contains(v) == b.contains(v));
            assert_eq!(a == b, same_members);
        }
    }
}

#[test]
fn intersection_lies_within_its_operands() {
    for a in samples() {
        for b in samples() {
            let both = a.intersection(&b);
            assert!(both.subset_of(&a));
            assert!(both.subset_of(&b));
            // A set lies within its intersection with another exactly when
            // it lies within the other.
            assert_eq!(a.subset_of(&both), a.subset_of(&b));
        }
    }
}

#[test]
fn a_set_is_disjoint_from_its_complement() {
    for a in samples() {
        assert!(a.is_disjoint(&a.complement()));
    }
}

#[test]
fn disjointness_and_inclusion_agree_with_their_definitions() {
    for a in samples() {
        for b in samples() {
            assert_eq!(a.is_disjoint(&b), a.intersection(&b) == Ranges::empty());
            assert_eq!(a.subset_of(&b), a == a.intersection(&b));
        }
    }
}
