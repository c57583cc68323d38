//! The data handed to the registry by its collaborators: raw
//! definitions (the pre-evaluation form used to walk alias chains),
//! date patterns, substances, timestamps, and the parsed definitions
//! structure that populates a registry.

use vstd::prelude::*;
use crate::dimension::Dimensionality;
use crate::number::Number;

verus! {

/// A stored raw definition: either a bare reference to another unit
/// name (an alias that canonicalization can walk), or any other
/// expression form, kept as its source text and not simplified further.
#[derive(Debug)]
pub enum Expr {
    Unit { name: String },
    Raw { text: String },
}

impl Clone for Expr {
    fn clone(&self) -> (r: Self)
        ensures
            r == *self,
    {
        match self {
            Expr::Unit { name } => Expr::Unit { name: name.clone() },
            Expr::Raw { text } => Expr::Raw { text: text.clone() },
        }
    }
}

/// One element of a date-format pattern.  Opaque metadata to the core
/// algebra; the date parser is an external collaborator.
#[derive(Debug)]
pub enum DatePattern {
    Literal(String),
    Match(String),
    Dash,
    Colon,
    Space,
}

/// A named substance: auxiliary metadata, opaque to the core algebra.
#[derive(Debug)]
pub struct Substance {
    pub name: String,
    pub properties: Vec<(String, Number)>,
}

/// A point in time as a Unix timestamp with subsecond nanoseconds.
#[derive(Clone, Copy, Debug, PartialEq, Eq, Structural)]
pub struct Timestamp {
    pub secs: i64,
    pub nanos: u32,
}

/// One parsed definition.
#[derive(Debug)]
pub enum Def {
    /// Declares a base dimension.
    Dimension { name: String },
    /// Binds a unit name to its fully-resolved value.
    Unit { name: String, value: Number },
    /// Registers a prefix and its multiplier, in registration order.
    Prefix { name: String, value: Number },
    /// Binds a derived-quantity name to a dimensionality.
    Quantity { name: String, unit: Dimensionality },
    /// An explicit alias from a name to its canonical spelling.
    Canonicalization { name: String, canonical: String },
    /// A raw definition, kept for alias walking.
    Definition { name: String, expr: Expr },
}

/// A parsed definitions structure, as produced by an external loader.
#[derive(Debug)]
pub struct Defs {
    pub defs: Vec<Def>,
}

} // verus!
