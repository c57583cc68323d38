//! A unit-aware calculator registry: resolves textual unit and quantity
//! names (with SI-style prefixes, plural forms, aliases, and derived
//! quantity names) into typed numeric values carrying a dimensionality,
//! and renders results as exact-or-approximate numbers with readable
//! unit descriptions.

pub mod ast;
pub mod canonical;
pub mod context;
pub mod describe;
pub mod dimension;
pub mod laws;
pub mod lookup;
pub mod number;
pub mod output;
pub mod rational;
pub mod search;
pub mod text;
