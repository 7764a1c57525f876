use version_set::{Bound, Ranges, VersionSet};

/// A version set that supplies the five primitives and nothing else, so that
/// every derived operation is the one that the interface provides. The five
/// items that exist for proofs alone are never called when a program runs.
#[derive(Clone, Debug, PartialEq, Eq)]
struct Plain(Ranges<u64>);

impl VersionSet for Plain {
    type V = u64;

    fn wf(&self) -> bool {
        unreachable!()
    }

    fn versions(&self) -> vstd::set::Set<u64> {
        unreachable!()
    }

    fn text(&self) -> vstd::seq::Seq<char> {
        unreachable!()
    }

    fn lemma_equality(_: &Self, _: &Self) {
        unreachable!()
    }

    fn lemma_text(_: &Self, _: &Self) {
        unreachable!()
    }

    fn to_text(&self) -> String {
        self.0.to_text()
    }

    fn empty() -> Self {
        Plain(Ranges::empty())
    }

    fn singleton(v: u64) -> Self {
        Plain(Ranges::singleton(v))
    }

    fn complement(&self) -> Self {
        Plain(self.0.complement())
    }

    fn intersection(&self, other: &Self) -> Self {
        Plain(self.0.intersection(&other.0))
    }

    fn contains(&self, v: &u64) -> bool {
        self.0.contains(v)
    }
}

fn plain(lo: u64, hi: u64) -> Plain {
    Plain(Ranges::from_bounds(Bound::Inclusive(lo), Bound::Exclusive(hi)))
}

fn show<S: VersionSet>(s: &S) -> String {
    s.to_text()
}

#[test]
fn text_through_the_interface() {
    assert_eq!(show(&plain(1, 3)), ">=1, <3");
    assert_eq!(show(&Ranges::<u64>::singleton(2).complement()), "<2 | >=3");
}

#[test]
fn derived_full_is_complement_of_empty() {
    assert_eq!(Plain::full(), Plain(Ranges::full()));
    assert!(Plain::full().contains(&0));
    assert!(Plain::full().contains(&u64::MAX));
}

#[test]
fn derived_union_joins_both_operands() {
    assert_eq!(plain(1, 3).union(&plain(2, 6)), plain(1, 6));
    assert_eq!(plain(1, 3).union(&plain(3, 6)), plain(1, 6));
    let apart = plain(1, 3).union(&plain(5, 6));
    for v in 0..8u64 {
        assert_eq!(apart.contains(&v), (1..3).contains(&v) || (5..6).contains(&v));
    }
    assert_eq!(Plain::singleton(2).union(&Plain::singleton(2)), Plain::singleton(2));
    assert_eq!(plain(1, 3).union(&Plain::empty()), plain(1, 3));
    assert_eq!(plain(1, 3).union(&Plain::full()), Plain::full());
}

#[test]
fn derived_is_disjoint_tests_the_intersection() {
    assert!(plain(1, 2).is_disjoint(&plain(3, 4)));
    assert!(plain(1, 2).is_disjoint(&plain(2, 4)));
    assert!(!plain(1, 3).is_disjoint(&plain(2, 4)));
    assert!(plain(1, 3).is_disjoint(&plain(1, 3).complement()));
    assert!(Plain::empty().is_disjoint(&Plain::full()));
}

#[test]
fn derived_subset_of_tests_the_intersection() {
    assert!(Plain::singleton(2).subset_of(&plain(1, 3)));
    assert!(!plain(1, 3).subset_of(&Plain::singleton(2)));
    assert!(plain(1, 3).subset_of(&plain(1, 3)));
    assert!(Plain::empty().subset_of(&plain(1, 3)));
    assert!(plain(1, 3).subset_of(&Plain::full()));
    assert!(!plain(1, 4).subset_of(&plain(2, 9)));
}
