//! Parsing engine for Carina, an indentation-sensitive, line-oriented source
//! language: a cursor over grapheme clusters, a four-way parse outcome,
//! combinators built on the two, and the block grammar built on those.

pub mod values;
pub mod types;
pub mod primitives;
pub mod combinators;
pub mod tree;
pub mod grammar;
pub mod laws;
pub mod source;
pub mod preprocessor;
