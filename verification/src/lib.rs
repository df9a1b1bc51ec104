//! A generic lazy-propagation segment tree.
//!
//! The tree stores aggregates of a user-supplied algebra (a monoid of values
//! `S` together with a monoid of operators `F` acting on it) and supports
//! point access, range aggregation, range operator application, and
//! predicate-guided binary search over prefixes and suffixes.  An optional
//! failure signal on aggregates (`is_failed`) triggers an exact repair by
//! push-down and recomputation, the "segment tree beats" extension.

pub mod helper;
pub mod monoid;
pub mod tree;
pub mod algebra;
pub mod beats;

pub use helper::LazySegtreeHelper;
pub use tree::LazySegtree;
