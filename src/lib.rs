//! Command-line argument handling: splitting off pass-through tokens,
//! declaring argument definitions in a registry, and validating tokens
//! against it with a fail-fast pass.
pub mod argument;
pub mod laws;
pub mod registry;
pub mod split;
pub mod text;
