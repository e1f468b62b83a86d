//! Encoder from a tree of instances to the XML model format.
//!
//! [`encode`] walks the instances below the given roots, produces the XML
//! tokens of the document and hands them, in order, to an indenting XML
//! writer. The walk is specified by [`serializer::document_tokens`]; what
//! holds of every document is proved in the modules [`nesting`],
//! [`shape`], [`referents`], [`reach`] and [`outcome`].

pub mod error;
pub mod nesting;
pub mod order;
pub mod outcome;
pub mod reach;
pub mod referents;
pub mod serializer;
pub mod shape;
pub mod sorting;
pub mod token;
pub mod tree;
pub mod value;
pub mod writer;

pub use crate::error::EncodeError;
pub use crate::serializer::{encode, encode_tokens};
