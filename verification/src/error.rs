//! The errors of the codec.

use vstd::prelude::*;

verus! {

/// The multicodec tag of a codec that this library does not implement.
#[derive(Clone, Copy, Debug, PartialEq, Eq, Structural)]
pub struct UnsupportedCodec(pub u64);

/// Why an operation of the codec failed.
#[derive(Clone, Copy, Debug, PartialEq, Eq, Structural)]
pub enum Error {
    /// The multicodec tag names no codec of this library.
    UnsupportedCodec(u64),
    /// The cursor holds fewer bytes than were asked for.
    ShortRead,
    /// The buffer cannot take the bytes: the write would end beyond the
    /// longest vector of the host.
    ShortWrite,
    /// A seek to a negative offset, or to one beyond 64 bits.
    InvalidSeek,
    /// The bytes of a text string are not UTF-8.
    InvalidUtf8,
    /// The initial byte is none of those that the target type accepts.
    UnexpectedCode(u8),
    /// Where a link was expected, the tag is not 42, or the tagged item is
    /// not a byte string with a one-byte length.
    UnexpectedTag(u8),
    /// The payload of a link is empty, does not begin with a zero byte, or
    /// holds no content identifier after it.
    InvalidLink,
    /// A length prefix exceeds what the host can address.
    LengthOverflow,
    /// An integer outside `-2^64 ..= 2^64 - 1` cannot be encoded.
    IntegerOutOfRange,
}

impl Error {
    /// The text of the message for each kind of error.
    pub open spec fn message_text(self) -> Seq<char> {
        match self {
            Error::UnsupportedCodec(_) => "unsupported codec"@,
            Error::ShortRead => "failed to fill whole buffer"@,
            Error::ShortWrite => "failed to write whole buffer"@,
            Error::InvalidSeek => "invalid seek to a negative or overflowing position"@,
            Error::InvalidUtf8 => "invalid UTF-8 in text string"@,
            Error::UnexpectedCode(_) => "unexpected cbor code"@,
            Error::UnexpectedTag(_) => "unknown cbor tag"@,
            Error::InvalidLink => "invalid link"@,
            Error::LengthOverflow => "length out of range"@,
            Error::IntegerOutOfRange => "integer out of range"@,
        }
    }

    /// A human-readable message for the error.
    pub fn message(&self) -> (text: String)
        ensures
            text@ == self.message_text(),
    {
        match self {
            Error::UnsupportedCodec(_) => "unsupported codec".to_owned(),
            Error::ShortRead => "failed to fill whole buffer".to_owned(),
            Error::ShortWrite => "failed to write whole buffer".to_owned(),
            Error::InvalidSeek => "invalid seek to a negative or overflowing position".to_owned(),
            Error::InvalidUtf8 => "invalid UTF-8 in text string".to_owned(),
            Error::UnexpectedCode(_) => "unexpected cbor code".to_owned(),
            Error::UnexpectedTag(_) => "unknown cbor tag".to_owned(),
            Error::InvalidLink => "invalid link".to_owned(),
            Error::LengthOverflow => "length out of range".to_owned(),
            Error::IntegerOutOfRange => "integer out of range".to_owned(),
        }
    }
}

} // verus!
