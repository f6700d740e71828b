//! The ways in which decoding fails.

use vstd::prelude::*;

verus! {

/// `std::io::Error`, as byte sources report it. Nothing is known of its
/// content here: it is carried to the caller as it came.
#[verifier::external_type_specification]
#[verifier::external_body]
pub struct ExIoError(std::io::Error);

/// A failure of the decoder.
#[derive(Debug)]
pub enum Error {
    /// The byte source could not supply a byte that decoding needed. The
    /// source's own error is inside, untouched.
    IoError(std::io::Error),
}

} // verus!
