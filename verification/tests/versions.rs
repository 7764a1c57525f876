use version_set::{Bound, Interval, Version};

#[test]
fn order_of_versions() {
    assert!(1u64.precedes(&2));
    assert!(!2u64.precedes(&2));
    assert!(!3u64.precedes(&2));
    assert!(0u32.precedes(&u32::MAX));
}

#[test]
fn least_version() {
    assert!(0u64.is_least());
    assert!(!1u64.is_least());
    assert!(0u32.is_least());
    assert!(!u32::MAX.is_least());
}

#[test]
fn successor_of_a_version() {
    assert_eq!(0u64.successor(), Some(1));
    assert_eq!(41u64.successor(), Some(42));
    assert_eq!(u64::MAX.successor(), None);
    assert_eq!((u32::MAX - 1).successor(), Some(u32::MAX));
    assert_eq!(u32::MAX.successor(), None);
}

#[test]
fn lower_bounds_in_normal_form() {
    assert_eq!(Bound::<u64>::UnboundedBelow.normal_lower(), Some(Bound::UnboundedBelow));
    assert_eq!(Bound::Inclusive(0u64).normal_lower(), Some(Bound::UnboundedBelow));
    assert_eq!(Bound::Inclusive(5u64).normal_lower(), Some(Bound::Inclusive(5)));
    assert_eq!(Bound::Exclusive(5u64).normal_lower(), Some(Bound::Inclusive(6)));
    assert_eq!(Bound::Exclusive(u64::MAX).normal_lower(), None);
    assert_eq!(Bound::<u64>::UnboundedAbove.normal_lower(), None);
}

#[test]
fn upper_bounds_in_normal_form() {
    assert_eq!(Bound::<u64>::UnboundedAbove.normal_upper(), Some(Bound::UnboundedAbove));
    assert_eq!(Bound::Inclusive(u64::MAX).normal_upper(), Some(Bound::UnboundedAbove));
    assert_eq!(Bound::Inclusive(5u64).normal_upper(), Some(Bound::Exclusive(6)));
    assert_eq!(Bound::Exclusive(5u64).normal_upper(), Some(Bound::Exclusive(5)));
    assert_eq!(Bound::Exclusive(0u64).normal_upper(), None);
    assert_eq!(Bound::<u64>::UnboundedBelow.normal_upper(), None);
}

#[test]
fn bounds_tested_against_a_version() {
    assert!(Bound::<u64>::UnboundedBelow.lets_in(&0));
    assert!(!Bound::<u64>::UnboundedAbove.lets_in(&u64::MAX));
    assert!(Bound::Inclusive(3u64).lets_in(&3));
    assert!(!Bound::Inclusive(3u64).lets_in(&2));
    assert!(Bound::Exclusive(3u64).lets_in(&4));
    assert!(!Bound::Exclusive(3u64).lets_in(&3));
    assert!(Bound::<u64>::UnboundedBelow.keeps_out(&0));
    assert!(!Bound::<u64>::UnboundedAbove.keeps_out(&u64::MAX));
    assert!(Bound::Exclusive(3u64).keeps_out(&3));
    assert!(!Bound::Exclusive(3u64).keeps_out(&2));
    assert!(Bound::Inclusive(3u64).keeps_out(&4));
    assert!(!Bound::Inclusive(3u64).keeps_out(&3));
}

#[test]
fn bounds_and_intervals_compared_for_sameness() {
    assert!(Bound::Inclusive(3u64).same(&Bound::Inclusive(3)));
    assert!(!Bound::Inclusive(3u64).same(&Bound::Inclusive(4)));
    assert!(!Bound::Inclusive(3u64).same(&Bound::Exclusive(3)));
    assert!(Bound::<u64>::UnboundedBelow.same(&Bound::UnboundedBelow));
    assert!(!Bound::<u64>::UnboundedBelow.same(&Bound::UnboundedAbove));
    let a = Interval { lo: Bound::Inclusive(1u64), hi: Bound::Exclusive(3) };
    assert!(a.same(&a.clone()));
    assert!(!a.same(&Interval { lo: Bound::Inclusive(1u64), hi: Bound::Exclusive(4) }));
    assert!(!a.same(&Interval { lo: Bound::Inclusive(2u64), hi: Bound::Exclusive(3) }));
}
