//! Sets of versions and their boolean algebra.
//!
//! `VersionSet` is the interface of a set of versions: two constructors,
//! complement, intersection and membership, and the operations that follow
//! from them. `Ranges` implements it over any ordered domain of versions
//! that knows its neighbours (`Version`), as a sequence of intervals kept in
//! a normal form, so that equal sets are equal values. The laws of the
//! algebra are proved in `laws`.

pub mod algebra;
pub mod bound;
pub mod complement;
pub mod equality;
pub mod intersection;
pub mod laws;
pub mod normal_form;
pub mod notation;
pub mod ranges;
pub mod render;
pub mod version;
pub mod version_set;

pub use bound::{Bound, Interval};
pub use ranges::Ranges;
pub use version::Version;
pub use version_set::VersionSet;
