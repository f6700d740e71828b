//! The byte source that a decoder draws from: a reader over a buffer of bytes.

use symphonia_core::io::BufReader;
use symphonia_core::io::ReadBytes;
use vstd::prelude::*;

verus! {

/// `symphonia_core::io::BufReader`: a cursor over a borrowed byte buffer.
#[verifier::external_type_specification]
#[verifier::external_body]
pub struct ExBufReader<'a>(BufReader<'a>);

/// The bytes of the buffer that `reader` has not handed out yet, in order:
/// everything from its position to the buffer's end.
pub uninterp spec fn unread(reader: BufReader<'_>) -> Seq<u8>;

/// Makes a reader over `bytes`, by `BufReader::new`: it stands at the first
/// byte, so all of `bytes` is unread.
#[verifier::external_body]
pub(crate) fn reader_over<'a>(bytes: &'a [u8]) -> (reader: BufReader<'a>)
    ensures
        unread(reader) == bytes@,
{
    BufReader::new(bytes)
}

/// Takes the next byte from the reader, by `ReadBytes::read_byte` as
/// `BufReader` implements it. With a byte left, the reader returns it and
/// moves past it; with none left it returns an error and stays where it is.
#[verifier::external_body]
pub(crate) fn next_byte(reader: &mut BufReader<'_>) -> (res: Result<u8, std::io::Error>)
    ensures
        unread(*old(reader)).len() > 0 ==> res == Ok::<u8, std::io::Error>(
            unread(*old(reader))[0],
        ) && unread(*final(reader)) == unread(*old(reader)).skip(1),
        unread(*old(reader)).len() == 0 ==> res is Err && unread(*final(reader)) == unread(
            *old(reader),
        ),
{
    reader.read_byte()
}

} // verus!
