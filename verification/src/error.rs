//! The ways in which decoding a byte stream can fail.

use vstd::prelude::*;

verus! {

/// Why a byte stream could not be decoded. Each of the three ends the
/// decoding of the stream at hand; nothing is resumed after one.
#[derive(Clone, Copy, Debug, PartialEq, Eq, Structural)]
pub enum MidiError {
    /// Fewer bytes were left in the source than a read asked for.
    TruncatedInput,
    /// A chunk did not begin with the four-byte tag expected at its place.
    InvalidChunkTag,
    /// The status in force where a channel event was expected has an upper
    /// nibble outside `0x8..=0xE`.
    UnknownChannelEventType,
}

} // verus!
