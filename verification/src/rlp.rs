//! Trusted bridges to the RLP decoders of the execution-layer types.
//!
//! A block header, a signed transaction and a receipt are opaque to this
//! codec: it only needs to know whether a byte string parses as one of them
//! with nothing left over, and, for a header, which block number it carries.
//! Those questions are answered by the alloy decoders behind the three
//! functions below; everything stated about them holds because each decoder
//! is a deterministic streaming parser that reads only the bytes it
//! consumes, so its outcome is decided by the consumed prefix alone, and at
//! most one prefix of a buffer can parse with nothing left (RLP items are
//! self-delimiting).

use vstd::prelude::*;

use alloy_rlp::Decodable;

verus! {

/// Whether `alloy_consensus::Header::decode` succeeds on this input.
pub uninterp spec fn header_dec_ok(b: Seq<u8>) -> bool;

/// How many bytes that call consumes, when it succeeds.
pub uninterp spec fn header_dec_used(b: Seq<u8>) -> int;

/// The block number of the header it returns, when it succeeds.
pub uninterp spec fn header_dec_number(b: Seq<u8>) -> u64;

/// The byte string is exactly one RLP-encoded execution header.
pub open spec fn header_rlp_ok(b: Seq<u8>) -> bool {
    header_dec_ok(b) && header_dec_used(b) == b.len()
}

/// Relies on `alloy_consensus::Header::decode` (its `alloy_rlp::Decodable`
/// impl): it parses one RLP-encoded header from the front of the buffer and
/// advances the buffer past the bytes it read. Returns the decoded block
/// number and the count of bytes left unread.
#[verifier::external_body]
pub(crate) fn try_decode_header(buf: &[u8]) -> (r: Option<(u64, usize)>)
    ensures
        r is Some <==> header_dec_ok(buf@),
        r matches Some(p) ==> (1 <= header_dec_used(buf@) <= buf@.len() && p.1 == buf@.len()
            - header_dec_used(buf@) && p.0 == header_dec_number(buf@) && header_rlp_ok(
            buf@.subrange(0, header_dec_used(buf@)),
        ) && header_dec_number(buf@.subrange(0, header_dec_used(buf@))) == p.0),
        r is None ==> (forall|c: int|
            0 <= c <= buf@.len() ==> !header_rlp_ok(#[trigger] buf@.subrange(0, c))),
        r is Some ==> (forall|c: int|
            0 <= c <= buf@.len() && header_rlp_ok(#[trigger] buf@.subrange(0, c)) ==> c
                == header_dec_used(buf@)),
{
    let mut s: &[u8] = buf;
    match alloy_consensus::Header::decode(&mut s) {
        Ok(h) => Some((h.number, s.len())),
        Err(_) => None,
    }
}

/// Whether `TxEnvelope::decode` succeeds on this input.
pub uninterp spec fn tx_dec_ok(b: Seq<u8>) -> bool;

/// How many bytes that call consumes, when it succeeds.
pub uninterp spec fn tx_dec_used(b: Seq<u8>) -> int;

/// The byte string is exactly one encoded signed transaction.
pub open spec fn tx_rlp_ok(b: Seq<u8>) -> bool {
    tx_dec_ok(b) && tx_dec_used(b) == b.len()
}

/// Relies on `alloy_consensus::TxEnvelope::decode` (its
/// `alloy_rlp::Decodable` impl, which network-decodes a legacy RLP list or
/// a typed-transaction envelope): it parses one signed transaction from the
/// front of the buffer. Returns the count of bytes left unread.
#[verifier::external_body]
pub(crate) fn try_decode_transaction(buf: &[u8]) -> (r: Option<usize>)
    ensures
        r is Some <==> tx_dec_ok(buf@),
        r matches Some(rem) ==> (1 <= tx_dec_used(buf@) <= buf@.len() && rem == buf@.len()
            - tx_dec_used(buf@) && tx_rlp_ok(buf@.subrange(0, tx_dec_used(buf@)))),
        r is None ==> (forall|c: int|
            0 <= c <= buf@.len() ==> !tx_rlp_ok(#[trigger] buf@.subrange(0, c))),
        r is Some ==> (forall|c: int|
            0 <= c <= buf@.len() && tx_rlp_ok(#[trigger] buf@.subrange(0, c)) ==> c == tx_dec_used(
                buf@,
            )),
{
    let mut s: &[u8] = buf;
    match <alloy_consensus::TxEnvelope as Decodable>::decode(&mut s) {
        Ok(_) => Some(s.len()),
        Err(_) => None,
    }
}

/// Whether `ReceiptEnvelope::decode` succeeds on this input.
pub uninterp spec fn receipt_dec_ok(b: Seq<u8>) -> bool;

/// How many bytes that call consumes, when it succeeds.
pub uninterp spec fn receipt_dec_used(b: Seq<u8>) -> int;

/// The byte string is exactly one encoded receipt.
pub open spec fn receipt_rlp_ok(b: Seq<u8>) -> bool {
    receipt_dec_ok(b) && receipt_dec_used(b) == b.len()
}

/// Relies on `alloy_consensus::ReceiptEnvelope::decode` (its
/// `alloy_rlp::Decodable` impl, which network-decodes a legacy RLP list or
/// a typed-receipt envelope): it parses one receipt from the front of the
/// buffer. Returns the count of bytes left unread.
#[verifier::external_body]
pub(crate) fn try_decode_receipt(buf: &[u8]) -> (r: Option<usize>)
    ensures
        r is Some <==> receipt_dec_ok(buf@),
        r matches Some(rem) ==> (1 <= receipt_dec_used(buf@) <= buf@.len() && rem == buf@.len()
            - receipt_dec_used(buf@) && receipt_rlp_ok(buf@.subrange(0, receipt_dec_used(buf@)))),
        r is None ==> (forall|c: int|
            0 <= c <= buf@.len() ==> !receipt_rlp_ok(#[trigger] buf@.subrange(0, c))),
        r is Some ==> (forall|c: int|
            0 <= c <= buf@.len() && receipt_rlp_ok(#[trigger] buf@.subrange(0, c)) ==> c
                == receipt_dec_used(buf@)),
{
    let mut s: &[u8] = buf;
    match <alloy_consensus::ReceiptEnvelope as Decodable>::decode(&mut s) {
        Ok(_) => Some(s.len()),
        Err(_) => None,
    }
}

} // verus!
