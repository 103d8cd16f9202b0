//! Decoding handshake names: a name arrives as UTF-8 bytes and is kept as
//! a string, or rejected where the bytes are not valid UTF-8.

use vstd::prelude::*;

verus! {

/// The characters of a byte sequence read as UTF-8, or nothing where the
/// bytes are not valid UTF-8. The encoding fixes the outcome from the
/// bytes alone.
pub uninterp spec fn utf8_decode(b: Seq<u8>) -> Option<Seq<char>>;

/// Whether a handshake buffer ends in the delimiter byte: the reader stops
/// at the first `0x00`, so a buffer that ends without one means the stream
/// ended before the handshake was complete.
pub open spec fn has_delim(buf: Seq<u8>) -> bool {
    buf.len() > 0 && buf[buf.len() - 1] == 0u8
}

/// The name a handshake buffer carries: the bytes before the delimiter,
/// read as UTF-8 — or nothing, where the delimiter never arrived or the
/// bytes are not valid UTF-8.
pub open spec fn handshake_name(buf: Seq<u8>) -> Option<Seq<char>> {
    if has_delim(buf) {
        utf8_decode(buf.drop_last())
    } else {
        None
    }
}

/// Relies on String::from_utf8: it returns the UTF-8 reading of the bytes
/// exactly when they are valid UTF-8, and its error otherwise.
#[verifier::external_body]
pub(crate) fn decode_utf8(b: Vec<u8>) -> (r: Option<String>)
    ensures
        match r {
            Some(s) => utf8_decode(b@) == Some(s@),
            None => utf8_decode(b@) is None,
        },
{
    match String::from_utf8(b) {
        Ok(s) => Some(s),
        Err(_) => None,
    }
}

} // verus!
