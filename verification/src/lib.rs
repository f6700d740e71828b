//! Entropy decoding for Opus: the range decoder that every later stage of an
//! Opus decoder draws its symbols from.
//!
//! A [`range::Decoder`] is made over the bytes of one compressed frame and
//! then asked for the frame's symbols, one call for each: a binary symbol
//! with a given scale, or a symbol of a table of cumulative frequencies. All of its arithmetic is on unsigned integers of fixed width.
//!
//! What the decoder does is stated over a model of it, in `range::model`:
//! two registers and the input bits that are still unread. The contracts of
//! the decoder's methods say which step of the model a call makes, and
//! `range::laws` proves what holds of every step and of every run.

pub mod errors;
pub mod range;
