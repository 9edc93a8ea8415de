//! The term algebra at the heart of a version-constraint solver.
//!
//! A [`Term`] is a positive or negative proposition over a set of versions
//! (a [`Range`]).  The library offers negation, intersection and union of
//! terms, and classifies how a term relates to a collection of other terms
//! assumed jointly true: entailed, contradicted, or neither.

pub mod laws;
pub mod range;
pub mod term;

pub use range::Range;
pub use range::Version;
pub use term::Relation;
pub use term::Term;
