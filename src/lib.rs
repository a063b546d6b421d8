//! Lending enumerators over combinatorial derivatives of slices.
pub mod iter;
