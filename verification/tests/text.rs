use version_set::version::decimal_text;
use version_set::{Bound, Interval, Ranges, Version};

#[test]
fn numbers_in_decimal() {
    assert_eq!(decimal_text(0), "0");
    assert_eq!(decimal_text(7), "7");
    assert_eq!(decimal_text(10), "10");
    assert_eq!(decimal_text(1234567890), "1234567890");
    assert_eq!(decimal_text(u64::MAX), "18446744073709551615");
    assert_eq!(42u64.to_text(), "42");
    assert_eq!(u32::MAX.to_text(), "4294967295");
}

#[test]
fn empty_and_full_as_text() {
    assert_eq!(Ranges::<u64>::empty().to_text(), "∅");
    assert_eq!(Ranges::<u64>::full().to_text(), "*");
}

#[test]
fn one_interval_as_text() {
    let r = Ranges::from_bounds(Bound::Inclusive(1u64), Bound::Exclusive(3));
    assert_eq!(r.to_text(), ">=1, <3");
    assert_eq!(Ranges::from_bounds(Bound::UnboundedBelow, Bound::Exclusive(2u64)).to_text(), "<2");
    assert_eq!(Ranges::from_bounds(Bound::Inclusive(4u64), Bound::UnboundedAbove).to_text(), ">=4");
    assert_eq!(Ranges::<u64>::singleton(12).to_text(), ">=12, <13");
}

#[test]
fn several_intervals_as_text() {
    let r = Ranges::from_bounds(Bound::Inclusive(2u64), Bound::Exclusive(4)).complement();
    assert_eq!(r.to_text(), "<2 | >=4");
    let s = r.intersection(&Ranges::from_bounds(Bound::Inclusive(10u64), Bound::Exclusive(20)).complement());
    assert_eq!(s.to_text(), "<2 | >=4, <10 | >=20");
}

#[test]
fn any_interval_as_text() {
    let closed = Interval { lo: Bound::Inclusive(1u64), hi: Bound::Inclusive(3) };
    assert_eq!(closed.to_text(), ">=1, <=3");
    let open = Interval { lo: Bound::Exclusive(1u64), hi: Bound::Exclusive(3) };
    assert_eq!(open.to_text(), ">1, <3");
    let whole: Interval<u64> = Interval { lo: Bound::UnboundedBelow, hi: Bound::UnboundedAbove };
    assert_eq!(whole.to_text(), "*");
    let none: Interval<u64> = Interval { lo: Bound::UnboundedAbove, hi: Bound::UnboundedBelow };
    assert_eq!(none.to_text(), ">*, <*");
}

#[test]
fn different_sets_are_written_differently() {
    let between = |lo: u64, hi: u64| Ranges::from_bounds(Bound::Inclusive(lo), Bound::Exclusive(hi));
    let sets = vec![
        Ranges::<u64>::empty(),
        Ranges::full(),
        Ranges::singleton(1),
        Ranges::singleton(11),
        between(1, 11),
        between(1, 12),
        between(11, 12).union(&between(1, 2)),
        between(1, 2).complement(),
        between(1, 2).union(&between(3, 4)),
        between(1, 2).union(&between(3, 4)).complement(),
        Ranges::from_bounds(Bound::UnboundedBelow, Bound::Exclusive(12)),
        Ranges::from_bounds(Bound::Inclusive(12), Bound::UnboundedAbove),
    ];
    for (i, a) in sets.iter().enumerate() {
        for (j, b) in sets.iter().enumerate() {
            assert_eq!(a.to_text() == b.to_text(), i == j);
            assert_eq!(a == b, i == j);
        }
    }
}
