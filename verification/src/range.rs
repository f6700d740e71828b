//! The range decoder, its model, and the parts it is built from.
//!
//! - `table`: the renormalization amounts, computed once and shared;
//! - `source`: the byte source that a decoder borrows;
//! - `bits`, `bitreader`: the source's bytes read as bits;
//! - `icdf`: tables of cumulative frequencies;
//! - `model`, `laws`: the arithmetic of the coder and what holds of it;
//! - `decoder`: the decoder itself.

pub mod bitreader;
pub mod bits;
pub mod decoder;
pub mod icdf;
pub mod laws;
pub mod model;
pub mod source;
pub mod table;

pub use decoder::Decoder;
pub use table::LookupTable;
