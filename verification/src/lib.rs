//! Content-item codec for a Portal Network history node.
//!
//! The library defines the on-the-wire identity of history content items:
//! block headers with their accumulator proofs, block bodies, receipt lists
//! and epoch accumulators. Items are framed in SSZ containers whose
//! variable-length fields carry RLP payloads, and travel as `0x`-prefixed
//! hex strings. Every encoder and decoder is specified down to the byte.

use vstd::prelude::*;

pub mod content_item;
pub mod hexutil;
pub mod rlp;
pub mod signature;
pub mod ssz;

verus! {

/// An error decoding a portal network content item, discriminated by kind.
#[derive(Clone, Copy, Debug, PartialEq, Eq, Structural)]
pub enum ContentItemDecodeError {
    /// The buffer is shorter than the schema requires.
    InputTruncated,
    /// A decoder consumed fewer bytes than the buffer holds.
    TrailingBytes,
    /// An SSZ list or vector is longer than its declared bound.
    BoundExceeded,
    /// An SSZ offset is out of range or non-monotonic.
    InvalidOffset,
    /// A union selector byte is outside the accepted set.
    InvalidUnionSelector(u8),
    /// The hex framing is malformed.
    InvalidHex,
    /// An inner RLP payload failed to decode.
    InnerRlp,
    /// No history content variant accepts the input.
    WrongVariant,
}

} // verus!
