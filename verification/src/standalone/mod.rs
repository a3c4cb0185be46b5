//! Standalone scanners: each extracts one element kind from a source slice.
pub mod common;
pub mod symmetric;
pub mod asymmetric;
pub mod fence;
pub mod line_marker;
pub mod key_value;
pub mod chained;
pub mod probe;
pub mod block_marker;
pub mod block_numbered;
pub mod line_uniform;
pub mod cont;
pub mod context;
pub mod context_iter;
