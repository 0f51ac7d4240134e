//! BLS signatures as fixed-length SSZ values with hex framing.

use vstd::prelude::*;

use crate::ContentItemDecodeError;
use crate::hexutil::{hex_encode, hex_decode, hex_encoding_of, strip_hex_prefix, is_hex_body, hex_val_of};
use crate::ssz::push_bytes;

verus! {

/// A BLS signature: exactly 96 bytes, SSZ-encoded as themselves.
#[derive(Clone, Debug, PartialEq, Eq)]
pub struct BlsSignature {
    signature: Vec<u8>,
}

impl View for BlsSignature {
    type V = Seq<u8>;

    closed spec fn view(&self) -> Seq<u8> {
        self.signature@
    }
}

impl BlsSignature {
    /// The signature holds exactly 96 bytes.
    pub closed spec fn wf(&self) -> bool {
        self.signature@.len() == 96
    }

    /// Builds a signature from exactly 96 bytes.
    pub fn new(bytes: Vec<u8>) -> (r: Option<BlsSignature>)
        ensures
            r is Some <==> bytes@.len() == 96,
            r matches Some(v) ==> v@ == bytes@ && v.wf(),
    {
        if bytes.len() == 96 {
            Some(BlsSignature { signature: bytes })
        } else {
            None
        }
    }

    /// The 96 bytes of the signature.
    pub fn bytes(&self) -> (r: &Vec<u8>)
        ensures
            r@ == self@,
    {
        &self.signature
    }

    /// SSZ treats the signature as a fixed-length value.
    pub fn is_ssz_fixed_len() -> (r: bool)
        ensures
            r,
    {
        true
    }

    /// The fixed SSZ length.
    pub fn ssz_fixed_len() -> (r: usize)
        ensures
            r == 96,
    {
        96
    }

    /// Decodes the fixed SSZ form: exactly 96 bytes.
    pub fn from_ssz_bytes(bytes: &[u8]) -> (r: Result<BlsSignature, ContentItemDecodeError>)
        ensures
            r matches Ok(v) ==> v.wf() && v@ == bytes@,
            r is Ok <==> bytes@.len() == 96,
            bytes@.len() < 96 ==> r == Err::<BlsSignature, ContentItemDecodeError>(
                ContentItemDecodeError::InputTruncated,
            ),
            bytes@.len() > 96 ==> r == Err::<BlsSignature, ContentItemDecodeError>(
                ContentItemDecodeError::TrailingBytes,
            ),
    {
        if bytes.len() < 96 {
            Err(ContentItemDecodeError::InputTruncated)
        } else if bytes.len() > 96 {
            Err(ContentItemDecodeError::TrailingBytes)
        } else {
            Ok(BlsSignature { signature: vstd::slice::slice_to_vec(bytes) })
        }
    }

    /// Appends the 96 bytes to `buf`.
    pub fn ssz_append(&self, buf: &mut Vec<u8>)
        ensures
            final(buf)@ == old(buf)@ + self@,
    {
        push_bytes(buf, self.signature.as_slice());
    }

    /// The SSZ length of this value.
    pub fn ssz_bytes_len(&self) -> (r: usize)
        requires
            self.wf(),
        ensures
            r == self@.len(),
    {
        96
    }

    /// Serializes the signature as a `0x`-prefixed hex string.
    pub fn serialize(&self) -> (r: String)
        ensures
            r@ == hex_encoding_of(self@),
    {
        hex_encode(self.signature.as_slice())
    }

    /// Deserializes a hex string into a signature; the bytes must be
    /// exactly 96.
    pub fn deserialize(s: &str) -> (r: Result<BlsSignature, ContentItemDecodeError>)
        ensures
            r matches Ok(v) ==> v.wf() && v@ == hex_val_of(strip_hex_prefix(s@)),
            r is Ok <==> is_hex_body(strip_hex_prefix(s@)) && hex_val_of(
                strip_hex_prefix(s@),
            ).len() == 96,
            !is_hex_body(strip_hex_prefix(s@)) ==> r == Err::<BlsSignature, ContentItemDecodeError>(
                ContentItemDecodeError::InvalidHex,
            ),
    {
        let bytes = match hex_decode(s) {
            Ok(b) => b,
            Err(_) => {
                return Err(ContentItemDecodeError::InvalidHex);
            },
        };
        BlsSignature::from_ssz_bytes(bytes.as_slice())
    }
}

} // verus!
