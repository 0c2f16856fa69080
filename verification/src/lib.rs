//! Position-tracking lexical primitives for streaming XML-like text.

pub mod jmdict;
pub mod xml;
