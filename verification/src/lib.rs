//! A declarative flat parsing engine for text formats: span type, byte
//! search primitives, and the standalone scanners that extract one element
//! kind from a source slice, each as a verified streaming iterator.
//!
//! All span endpoints are `u32` byte offsets into the source slice;
//! input must not exceed [`span::MAX_INPUT_LEN`] bytes.

pub mod span;
pub mod search;
pub mod swar;
pub mod standalone;

pub use standalone::asymmetric::AsymmetricExactIter;
pub use standalone::block_marker::BlockMarkerIter;
pub use standalone::block_numbered::BlockNumberedIter;
pub use standalone::chained::ChainedIter;
pub use standalone::cont::ContIter;
pub use standalone::context::{ContextCursor, ParseContext};
pub use standalone::context_iter::{ContextAsymmetricExactIter, ContextSymmetricExactIter};
pub use standalone::fence::FenceIter;
pub use standalone::key_value::KvIter;
pub use standalone::line_marker::LineMarkerIter;
pub use standalone::line_uniform::LineUniformIter;
pub use standalone::symmetric::SymmetricExactIter;
