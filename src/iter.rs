//! Enumerators over combinatorial derivatives of slices.
//!
//! Each enumerator owns one buffer that it rewrites in place and lends to the
//! caller on every advance; the view is valid until the next advance.
pub mod catalan;
pub mod combinations;
pub mod order;
pub mod permutations;
pub mod product;
pub mod subsequences;

pub use catalan::Catalan;
pub use combinations::{Combinations, CombinationsIterator};
pub use permutations::{ElementSwaps, Permutations, PermutationsIterator};
pub use product::Product;
pub use subsequences::{Subsequences, SubsequencesIterator};
