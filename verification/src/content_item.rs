//! History content items and their codecs.
//!
//! Each content variant carries its payloads as validated RLP byte strings
//! and is framed by the SSZ schemas of the history network. Every encoder
//! is exact and every decoder accepts exactly the encodings of valid
//! values.

use vstd::prelude::*;

use crate::ContentItemDecodeError;
use crate::hexutil::{hex_encode, hex_decode, hex_encoding_of, strip_hex_prefix, is_hex_body, hex_val_of};
use crate::rlp::{
    header_rlp_ok, header_dec_ok, header_dec_number, try_decode_header, tx_rlp_ok,
    try_decode_transaction, receipt_rlp_ok, try_decode_receipt,
};
use crate::ssz::{
    concat_all, sum_lens, var_list_enc, var_items_bounded, var_list_fits, var_list_decodable,
    container2_enc, encode_var_list, decode_var_list, encode_container2, decode_container2,
    decode_fixed_list, fixed_items_ok, push_bytes, lemma_concat_push, lemma_concat_len,
    lemma_sum_lens_nonneg, lemma_sum_take_le, lemma_sum_take_succ,
    lemma_sum_take_fixed, lemma_concat_index, lemma_var_list_enc_injective,
    lemma_container2_parts, lemma_container2_injective, lemma_fixed_concat_injective,
    lemma_vecs_deep_view,
};

verus! {

/// An encodable portal network content item.
pub trait ContentItem: Sized {
    /// The value respects its declared schema bounds.
    spec fn valid(&self) -> bool;

    /// The canonical byte encoding of the value.
    spec fn enc(&self) -> Seq<u8>;

    /// Encodes the content item, appending the encoded bytes to `buf`.
    fn encode(&self, buf: &mut Vec<u8>)
        requires
            self.valid(),
        ensures
            final(buf)@ == old(buf)@ + self.enc(),
    ;

    /// Decodes `buf` into a content item. Succeeds exactly on the
    /// encodings of valid values, and only ever returns such a value
    /// together with the bytes it came from.
    fn decode(buf: &[u8]) -> (r: Result<Self, ContentItemDecodeError>)
        ensures
            r matches Ok(v) ==> v.valid() && v.enc() == buf@,
            forall|v: Self| v.valid() && (#[trigger] v.enc()) == buf@ ==> r is Ok,
    ;
}

/// A 32-byte hash.
#[derive(Clone, Debug, PartialEq, Eq)]
pub struct H256 {
    bytes: Vec<u8>,
}

impl View for H256 {
    type V = Seq<u8>;

    closed spec fn view(&self) -> Seq<u8> {
        self.bytes@
    }
}

impl H256 {
    /// The hash holds exactly 32 bytes.
    pub closed spec fn wf(&self) -> bool {
        self.bytes@.len() == 32
    }

    /// Builds a hash from exactly 32 bytes.
    pub fn from_bytes(bytes: Vec<u8>) -> (r: Option<H256>)
        ensures
            r is Some <==> bytes@.len() == 32,
            r matches Some(h) ==> h@ == bytes@ && h.wf(),
    {
        if bytes.len() == 32 {
            Some(H256 { bytes })
        } else {
            None
        }
    }

    /// The 32 bytes of the hash.
    pub fn bytes(&self) -> (r: &Vec<u8>)
        ensures
            r@ == self@,
    {
        &self.bytes
    }
}

/// A 256-bit unsigned integer, kept in its 32 little-endian bytes.
#[derive(Clone, Debug, PartialEq, Eq)]
pub struct U256 {
    le_bytes: Vec<u8>,
}

impl View for U256 {
    type V = Seq<u8>;

    closed spec fn view(&self) -> Seq<u8> {
        self.le_bytes@
    }
}

impl U256 {
    /// The integer holds exactly 32 little-endian bytes.
    pub closed spec fn wf(&self) -> bool {
        self.le_bytes@.len() == 32
    }

    /// Builds an integer from exactly 32 little-endian bytes.
    pub fn from_le_bytes(bytes: Vec<u8>) -> (r: Option<U256>)
        ensures
            r is Some <==> bytes@.len() == 32,
            r matches Some(x) ==> x@ == bytes@ && x.wf(),
    {
        if bytes.len() == 32 {
            Some(U256 { le_bytes: bytes })
        } else {
            None
        }
    }

    /// The 32 little-endian bytes of the integer.
    pub fn le_bytes(&self) -> (r: &Vec<u8>)
        ensures
            r@ == self@,
    {
        &self.le_bytes
    }
}

/// An Ethereum execution-layer block header, kept as its RLP encoding
/// together with the block number it carries.
#[derive(Clone, Debug, PartialEq, Eq)]
pub struct Header {
    number: u64,
    rlp: Vec<u8>,
}

impl View for Header {
    type V = Seq<u8>;

    closed spec fn view(&self) -> Seq<u8> {
        self.rlp@
    }
}

impl Header {
    /// The bytes are exactly one RLP-encoded header, and the cached block
    /// number is the one they carry.
    pub closed spec fn wf(&self) -> bool {
        header_rlp_ok(self.rlp@) && self.number == header_dec_number(self.rlp@)
    }

    pub closed spec fn spec_number(&self) -> u64 {
        self.number
    }

    /// Builds a header from its RLP encoding; the whole buffer must be
    /// consumed.
    pub fn from_rlp(rlp: Vec<u8>) -> (r: Result<Header, ContentItemDecodeError>)
        ensures
            r matches Ok(h) ==> h.wf() && h@ == rlp@,
            r is Ok <==> header_rlp_ok(rlp@),
            r is Ok ==> (forall|c: int|
                0 <= c < rlp@.len() ==> !header_rlp_ok(#[trigger] rlp@.subrange(0, c))),
            r is Err ==> (r == Err::<Header, ContentItemDecodeError>(
                ContentItemDecodeError::InnerRlp,
            ) || r == Err::<Header, ContentItemDecodeError>(ContentItemDecodeError::TrailingBytes)),
            !header_dec_ok(rlp@) ==> r == Err::<Header, ContentItemDecodeError>(
                ContentItemDecodeError::InnerRlp,
            ),
    {
        match try_decode_header(rlp.as_slice()) {
            Some((num, rem)) => {
                if rem == 0 {
                    Ok(Header { number: num, rlp })
                } else {
                    Err(ContentItemDecodeError::TrailingBytes)
                }
            },
            None => Err(ContentItemDecodeError::InnerRlp),
        }
    }

    /// The block number.
    pub fn number(&self) -> (r: u64)
        ensures
            r == self.spec_number(),
    {
        self.number
    }

    /// The RLP bytes of the header.
    pub fn rlp_bytes(&self) -> (r: &Vec<u8>)
        ensures
            r@ == self@,
    {
        &self.rlp
    }
}

impl ContentItem for Header {
    open spec fn valid(&self) -> bool {
        self.wf()
    }

    open spec fn enc(&self) -> Seq<u8> {
        self@
    }

    fn encode(&self, buf: &mut Vec<u8>) {
        push_bytes(buf, self.rlp.as_slice());
    }

    fn decode(buf: &[u8]) -> (r: Result<Self, ContentItemDecodeError>) {
        let v = vstd::slice::slice_to_vec(buf);
        Header::from_rlp(v)
    }
}

/// A signed execution transaction, kept as its encoded form.
#[derive(Clone, Debug, PartialEq, Eq)]
pub struct TransactionSigned {
    rlp: Vec<u8>,
}

impl View for TransactionSigned {
    type V = Seq<u8>;

    closed spec fn view(&self) -> Seq<u8> {
        self.rlp@
    }
}

impl TransactionSigned {
    /// The bytes are exactly one encoded signed transaction.
    pub closed spec fn wf(&self) -> bool {
        tx_rlp_ok(self.rlp@)
    }

    /// Builds a transaction from its encoded form; the whole buffer must
    /// be consumed.
    pub fn from_rlp(rlp: Vec<u8>) -> (r: Result<TransactionSigned, ContentItemDecodeError>)
        ensures
            r matches Ok(t) ==> t.wf() && t@ == rlp@,
            r is Ok <==> tx_rlp_ok(rlp@),
            r is Ok ==> (forall|c: int|
                0 <= c < rlp@.len() ==> !tx_rlp_ok(#[trigger] rlp@.subrange(0, c))),
            r is Err ==> (r == Err::<TransactionSigned, ContentItemDecodeError>(
                ContentItemDecodeError::InnerRlp,
            ) || r == Err::<TransactionSigned, ContentItemDecodeError>(
                ContentItemDecodeError::TrailingBytes,
            )),
    {
        match try_decode_transaction(rlp.as_slice()) {
            Some(rem) => {
                if rem == 0 {
                    Ok(TransactionSigned { rlp })
                } else {
                    Err(ContentItemDecodeError::TrailingBytes)
                }
            },
            None => Err(ContentItemDecodeError::InnerRlp),
        }
    }

    /// The encoded bytes of the transaction.
    pub fn rlp_bytes(&self) -> (r: &Vec<u8>)
        ensures
            r@ == self@,
    {
        &self.rlp
    }
}

/// An execution receipt, kept as its encoded form.
#[derive(Clone, Debug, PartialEq, Eq)]
pub struct Receipt {
    rlp: Vec<u8>,
}

impl View for Receipt {
    type V = Seq<u8>;

    closed spec fn view(&self) -> Seq<u8> {
        self.rlp@
    }
}

impl Receipt {
    /// The bytes are exactly one encoded receipt.
    pub closed spec fn wf(&self) -> bool {
        receipt_rlp_ok(self.rlp@)
    }

    /// Builds a receipt from its encoded form; the whole buffer must be
    /// consumed.
    pub fn from_rlp(rlp: Vec<u8>) -> (r: Result<Receipt, ContentItemDecodeError>)
        ensures
            r matches Ok(t) ==> t.wf() && t@ == rlp@,
            r is Ok <==> receipt_rlp_ok(rlp@),
            r is Ok ==> (forall|c: int|
                0 <= c < rlp@.len() ==> !receipt_rlp_ok(#[trigger] rlp@.subrange(0, c))),
            r is Err ==> (r == Err::<Receipt, ContentItemDecodeError>(
                ContentItemDecodeError::InnerRlp,
            ) || r == Err::<Receipt, ContentItemDecodeError>(
                ContentItemDecodeError::TrailingBytes,
            )),
    {
        match try_decode_receipt(rlp.as_slice()) {
            Some(rem) => {
                if rem == 0 {
                    Ok(Receipt { rlp })
                } else {
                    Err(ContentItemDecodeError::TrailingBytes)
                }
            },
            None => Err(ContentItemDecodeError::InnerRlp),
        }
    }

    /// The encoded bytes of the receipt.
    pub fn rlp_bytes(&self) -> (r: &Vec<u8>)
        ensures
            r@ == self@,
    {
        &self.rlp
    }
}

/// A record of one historical header: its hash and the total difficulty
/// reached at it. Fixed SSZ length of 64 bytes.
#[derive(Clone, Debug, PartialEq, Eq)]
pub struct HeaderRecord {
    pub hash: H256,
    pub total_difficulty: U256,
}

impl HeaderRecord {
    pub open spec fn wf(&self) -> bool {
        self.hash.wf() && self.total_difficulty.wf()
    }

    /// The 64-byte SSZ encoding: the hash, then the little-endian
    /// difficulty.
    pub open spec fn enc(&self) -> Seq<u8> {
        self.hash@ + self.total_difficulty@
    }
}

/// The per-record encodings of a record sequence.
pub open spec fn record_encs(records: Seq<HeaderRecord>) -> Seq<Seq<u8>> {
    records.map_values(|r: HeaderRecord| r.enc())
}

/// A list of header records fixing one historical epoch; at most 8192
/// records.
#[derive(Clone, Debug, PartialEq, Eq)]
pub struct EpochAccumulator {
    pub records: Vec<HeaderRecord>,
}

impl EpochAccumulator {
    /// The number of records.
    pub fn len(&self) -> (r: usize)
        ensures
            r == self.records@.len(),
    {
        self.records.len()
    }
}

impl ContentItem for EpochAccumulator {
    open spec fn valid(&self) -> bool {
        &&& self.records@.len() <= 8192
        &&& forall|i: int| 0 <= i < self.records@.len() ==> (#[trigger] self.records@[i]).wf()
    }

    open spec fn enc(&self) -> Seq<u8> {
        concat_all(record_encs(self.records@))
    }

    fn encode(&self, buf: &mut Vec<u8>) {
        let ghost encs = record_encs(self.records@);
        let n = self.records.len();
        let mut i: usize = 0;
        proof {
            assert(encs.take(0) =~= Seq::<Seq<u8>>::empty());
            assert(buf@ + concat_all(encs.take(0)) =~= buf@);
        }
        while i < n
            invariant
                i <= n,
                n == self.records@.len(),
                encs == record_encs(self.records@),
                forall|j: int| 0 <= j < n ==> (#[trigger] self.records@[j]).wf(),
                buf@ == old(buf)@ + concat_all(encs.take(i as int)),
            decreases n - i,
        {
            proof {
                assert(encs[i as int] == self.records@[i as int].enc());
                assert(encs.take(i + 1) =~= encs.take(i as int).push(encs[i as int]));
                lemma_concat_push(encs.take(i as int), encs[i as int]);
            }
            let r = &self.records[i];
            push_bytes(buf, r.hash.bytes.as_slice());
            push_bytes(buf, r.total_difficulty.le_bytes.as_slice());
            proof {
                assert(old(buf)@ + concat_all(encs.take(i as int)) + r.hash@ + r.total_difficulty@
                    =~= old(buf)@ + (concat_all(encs.take(i as int)) + (r.hash@
                    + r.total_difficulty@)));
            }
            i = i + 1;
        }
        proof {
            assert(encs.take(n as int) =~= encs);
        }
    }

    fn decode(buf: &[u8]) -> (r: Result<Self, ContentItemDecodeError>) {
        let chunks = match decode_fixed_list(buf, 64, 8192) {
            Ok(c) => c,
            Err(e) => {
                proof {
                    assert forall|v: EpochAccumulator|
                        v.valid() && (#[trigger] v.enc()) == buf@ implies false by {
                        let encs = record_encs(v.records@);
                        assert(forall|j: int|
                            0 <= j < encs.len() ==> (#[trigger] encs[j]).len() == 64) by {
                            assert(forall|j: int|
                                0 <= j < v.records@.len() ==> (#[trigger] encs[j])
                                    == v.records@[j].enc());
                        }
                        lemma_sum_take_fixed(encs, 64, encs.len() as int);
                        assert(encs.take(encs.len() as int) =~= encs);
                        lemma_concat_len(encs);
                        assert(buf@.len() == 64 * encs.len());
                        assert((buf@.len() as int) % 64 == 0 && (buf@.len() as int) / 64
                            == encs.len()) by (nonlinear_arith)
                            requires
                                buf@.len() == 64 * encs.len(),
                        ;
                    }
                }
                return Err(e);
            },
        };
        let n = chunks.len();
        let mut records: Vec<HeaderRecord> = Vec::new();
        let ghost dv = chunks.deep_view();
        let mut i: usize = 0;
        while i < n
            invariant
                i <= n,
                n == chunks@.len(),
                dv == chunks.deep_view(),
                dv.len() == n,
                forall|j: int| 0 <= j < n ==> dv[j] == (#[trigger] chunks@[j])@,
                fixed_items_ok(dv, 64),
                records@.len() == i,
                forall|j: int| 0 <= j < i ==> (#[trigger] records@[j]).wf(),
                forall|j: int| 0 <= j < i ==> (#[trigger] records@[j]).enc() == dv[j],
            decreases n - i,
        {
            let chunk = &chunks[i];
            let hash_bytes = vstd::slice::slice_to_vec(vstd::slice::slice_subrange(
                chunk.as_slice(),
                0,
                32,
            ));
            let td_bytes = vstd::slice::slice_to_vec(vstd::slice::slice_subrange(
                chunk.as_slice(),
                32,
                64,
            ));
            let rec = HeaderRecord {
                hash: H256 { bytes: hash_bytes },
                total_difficulty: U256 { le_bytes: td_bytes },
            };
            proof {
                assert(rec.enc() =~= dv[i as int]);
            }
            records.push(rec);
            i = i + 1;
        }
        let acc = EpochAccumulator { records };
        proof {
            let encs = record_encs(acc.records@);
            assert(encs =~= dv) by {
                assert(forall|j: int|
                    0 <= j < n ==> (#[trigger] encs[j]) == acc.records@[j].enc());
            }
            assert(acc.enc() == concat_all(dv));
        }
        Ok(acc)
    }
}


/// The encoded forms of a receipt sequence.
pub open spec fn receipt_encs(rs: Seq<Receipt>) -> Seq<Seq<u8>> {
    rs.map_values(|r: Receipt| r@)
}

impl ContentItem for Vec<Receipt> {
    open spec fn valid(&self) -> bool {
        &&& self@.len() <= 16384
        &&& forall|i: int|
            0 <= i < self@.len() ==> (#[trigger] self@[i]).wf() && self@[i]@.len() <= 0x8000000
        &&& var_list_fits(receipt_encs(self@))
    }

    open spec fn enc(&self) -> Seq<u8> {
        var_list_enc(receipt_encs(self@))
    }

    fn encode(&self, buf: &mut Vec<u8>) {
        let ghost encs = receipt_encs(self@);
        let n = self.len();
        let mut items: Vec<Vec<u8>> = Vec::new();
        let mut i: usize = 0;
        while i < n
            invariant
                i <= n,
                n == self@.len(),
                encs == receipt_encs(self@),
                items@.len() == i,
                forall|j: int| 0 <= j < i ==> (#[trigger] items@[j])@ == encs[j],
            decreases n - i,
        {
            proof {
                assert(encs[i as int] == self@[i as int]@);
            }
            items.push(vstd::slice::slice_to_vec(self[i].rlp.as_slice()));
            i = i + 1;
        }
        proof {
            lemma_vecs_deep_view(items@);
            assert(items.deep_view() =~= encs);
        }
        encode_var_list(&items, buf);
    }

    fn decode(buf: &[u8]) -> (r: Result<Self, ContentItemDecodeError>) {
        if (buf.len() as u64) >= 0x1_0000_0000u64 {
            proof {
                assert forall|v: Vec<Receipt>|
                    v.valid() && (#[trigger] v.enc()) == buf@ implies false by {
                    let encs = receipt_encs(v@);
                    if encs.len() > 0 {
                        crate::ssz::lemma_offset_table_len(encs, 4 * encs.len() as int);
                        lemma_concat_len(encs);
                    }
                }
            }
            return Err(ContentItemDecodeError::InvalidOffset);
        }
        let chunks = match decode_var_list(buf, 16384, 0x8000000) {
            Ok(c) => c,
            Err(e) => {
                proof {
                    assert forall|v: Vec<Receipt>|
                        v.valid() && (#[trigger] v.enc()) == buf@ implies false by {
                        let encs = receipt_encs(v@);
                        assert(forall|j: int|
                            0 <= j < encs.len() ==> (#[trigger] encs[j]) == v@[j]@);
                        assert(var_items_bounded(encs, 16384, 0x8000000));
                        assert(var_list_decodable(buf@, 16384, 0x8000000));
                    }
                }
                return Err(e);
            },
        };
        let ghost dv = chunks.deep_view();
        proof {
            lemma_vecs_deep_view(chunks@);
            assert(dv =~= Seq::new(chunks@.len(), |j: int| chunks@[j].deep_view()));
        }
        let n = chunks.len();
        let mut out: Vec<Receipt> = Vec::new();
        let mut i: usize = 0;
        while i < n
            invariant
                i <= n,
                n == chunks@.len(),
                dv == chunks.deep_view(),
                dv.len() == n,
                forall|j: int| 0 <= j < n ==> dv[j] == (#[trigger] chunks@[j])@,
                var_items_bounded(dv, 16384, 0x8000000),
                var_list_enc(dv) == buf@,
                buf@.len() < 0x1_0000_0000,
                out@.len() == i,
                forall|j: int| 0 <= j < i ==> (#[trigger] out@[j]).wf(),
                forall|j: int| 0 <= j < i ==> (#[trigger] out@[j])@ == dv[j],
            decreases n - i,
        {
            let rec = match Receipt::from_rlp(vstd::slice::slice_to_vec(chunks[i].as_slice())) {
                Ok(t) => t,
                Err(e) => {
                    proof {
                        assert forall|v: Vec<Receipt>|
                            v.valid() && (#[trigger] v.enc()) == buf@ implies false by {
                            let encs = receipt_encs(v@);
                            assert(forall|j: int|
                                0 <= j < encs.len() ==> (#[trigger] encs[j]) == v@[j]@);
                            crate::ssz::lemma_offset_table_len(encs, 4 * encs.len() as int);
                            lemma_concat_len(encs);
                            crate::ssz::lemma_offset_table_len(dv, 4 * dv.len() as int);
                            lemma_concat_len(dv);
                            lemma_sum_lens_nonneg(dv);
                            assert(var_list_fits(dv));
                            lemma_var_list_enc_injective(encs, dv);
                            assert(dv[i as int] == v@[i as int]@);
                            assert(receipt_rlp_ok(dv[i as int]));
                        }
                    }
                    return Err(e);
                },
            };
            out.push(rec);
            i = i + 1;
        }
        proof {
            let encs = receipt_encs(out@);
            assert(encs =~= dv) by {
                assert(forall|j: int| 0 <= j < n ==> (#[trigger] encs[j]) == out@[j]@);
            }
            if dv.len() > 0 {
                crate::ssz::lemma_offset_table_len(dv, 4 * dv.len() as int);
                lemma_concat_len(dv);
            }
            assert(var_list_fits(dv));
        }
        Ok(out)
    }
}

/// The byte views of a hash sequence.
pub open spec fn hash_views(hs: Seq<H256>) -> Seq<Seq<u8>> {
    hs.map_values(|h: H256| h@)
}

/// An optional SSZ value, encoded as a one-byte union selector (0 for
/// absent, 1 for present) followed by the body.
#[derive(Clone, Debug, PartialEq, Eq)]
pub struct SszOption<T>(pub Option<T>);

impl SszOption<Vec<H256>> {
    /// When present, the proof has exactly 15 well-formed hashes.
    pub open spec fn wf(&self) -> bool {
        self.0 matches Some(hs) ==> hs@.len() == 15 && (forall|i: int|
            0 <= i < hs@.len() ==> (#[trigger] hs@[i]).wf())
    }

    /// The union encoding: selector 0 alone, or selector 1 followed by the
    /// 480 bytes of the fixed hash vector.
    pub open spec fn ssz_enc(&self) -> Seq<u8> {
        match self.0 {
            Option::None => seq![0u8],
            Option::Some(hs) => seq![1u8] + concat_all(hash_views(hs@)),
        }
    }

    /// The encoded length: 1 when absent, 481 when present.
    pub fn ssz_bytes_len(&self) -> (r: usize)
        requires
            self.wf(),
        ensures
            r == self.ssz_enc().len(),
    {
        match &self.0 {
            Option::None => 1,
            Option::Some(hs) => {
                proof {
                    let views = hash_views(hs@);
                    assert(forall|j: int| 0 <= j < views.len() ==> (#[trigger] views[j]).len() == 32
                        && views[j] == hs@[j]@);
                    lemma_sum_take_fixed(views, 32, views.len() as int);
                    assert(views.take(views.len() as int) =~= views);
                    lemma_concat_len(views);
                }
                481
            },
        }
    }

    /// Appends the union encoding to `buf`.
    pub fn ssz_append(&self, buf: &mut Vec<u8>)
        requires
            self.wf(),
        ensures
            final(buf)@ == old(buf)@ + self.ssz_enc(),
    {
        match &self.0 {
            Option::None => {
                buf.push(0);
                proof {
                    assert(old(buf)@ + self.ssz_enc() =~= buf@);
                }
            },
            Option::Some(hs) => {
                buf.push(1);
                let ghost views = hash_views(hs@);
                proof {
                    assert(forall|j: int|
                        0 <= j < views.len() ==> (#[trigger] views[j]) == hs@[j]@);
                    assert(views.take(0) =~= Seq::<Seq<u8>>::empty());
                    assert(old(buf)@ + seq![1u8] + concat_all(views.take(0)) =~= buf@);
                }
                let n = hs.len();
                let mut i: usize = 0;
                while i < n
                    invariant
                        i <= n,
                        n == hs@.len(),
                        views == hash_views(hs@),
                        forall|j: int| 0 <= j < n ==> (#[trigger] views[j]) == hs@[j]@,
                        buf@ == old(buf)@ + seq![1u8] + concat_all(views.take(i as int)),
                    decreases n - i,
                {
                    proof {
                        assert(views.take(i + 1) =~= views.take(i as int).push(views[i as int]));
                        lemma_concat_push(views.take(i as int), views[i as int]);
                    }
                    push_bytes(buf, hs[i].bytes.as_slice());
                    proof {
                        assert(old(buf)@ + seq![1u8] + concat_all(views.take(i as int)) + hs@[i as int]@
                            =~= old(buf)@ + seq![1u8] + (concat_all(views.take(i as int)) + hs@[i
                            as int]@));
                    }
                    i = i + 1;
                }
                proof {
                    assert(views.take(n as int) =~= views);
                    assert(old(buf)@ + seq![1u8] + concat_all(views) =~= old(buf)@ + (seq![1u8]
                        + concat_all(views)));
                }
            },
        }
    }

    /// Decodes the union encoding. Selector 0 must stand alone; selector 1
    /// must be followed by exactly the fixed hash vector; any other
    /// selector is invalid.
    pub fn from_ssz_bytes(bytes: &[u8]) -> (r: Result<Self, ContentItemDecodeError>)
        ensures
            r matches Ok(o) ==> o.wf() && o.ssz_enc() == bytes@,
            forall|o: SszOption<Vec<H256>>|
                o.wf() && (#[trigger] o.ssz_enc()) == bytes@ ==> r is Ok,
            bytes@.len() == 0 ==> r == Err::<SszOption<Vec<H256>>, ContentItemDecodeError>(
                ContentItemDecodeError::InputTruncated,
            ),
            bytes@.len() > 1 && bytes@[0] == 0 ==> r == Err::<
                SszOption<Vec<H256>>,
                ContentItemDecodeError,
            >(ContentItemDecodeError::TrailingBytes),
            bytes@.len() > 0 && bytes@[0] >= 2 ==> r == Err::<
                SszOption<Vec<H256>>,
                ContentItemDecodeError,
            >(ContentItemDecodeError::InvalidUnionSelector(bytes@[0])),
    {
        let l = bytes.len();
        if l == 0 {
            proof {
                assert forall|o: SszOption<Vec<H256>>|
                    o.wf() && (#[trigger] o.ssz_enc()) == bytes@ implies false by {}
            }
            return Err(ContentItemDecodeError::InputTruncated);
        }
        let sel = bytes[0];
        if sel == 0 {
            if l == 1 {
                let o = SszOption::<Vec<H256>>(None);
                proof {
                    assert(o.ssz_enc() =~= bytes@);
                }
                return Ok(o);
            }
            proof {
                assert forall|o: SszOption<Vec<H256>>|
                    o.wf() && (#[trigger] o.ssz_enc()) == bytes@ implies false by {
                    if o.0 is Some {
                        assert(o.ssz_enc()[0] == 1u8);
                    }
                }
            }
            return Err(ContentItemDecodeError::TrailingBytes);
        }
        if sel >= 2 {
            proof {
                assert forall|o: SszOption<Vec<H256>>|
                    o.wf() && (#[trigger] o.ssz_enc()) == bytes@ implies false by {
                    if o.0 is Some {
                        assert(o.ssz_enc()[0] == 1u8);
                    } else {
                        assert(o.ssz_enc()[0] == 0u8);
                    }
                }
            }
            return Err(ContentItemDecodeError::InvalidUnionSelector(sel));
        }
        proof {
            assert forall|o: SszOption<Vec<H256>>|
                o.wf() && o.0 is Some implies (#[trigger] o.ssz_enc()).len() == 481 by {
                let hs = o.0->0;
                let views = hash_views(hs@);
                assert(forall|j: int| 0 <= j < views.len() ==> (#[trigger] views[j]).len() == 32
                    && views[j] == hs@[j]@);
                lemma_sum_take_fixed(views, 32, views.len() as int);
                assert(views.take(views.len() as int) =~= views);
                lemma_concat_len(views);
            }
        }
        if l != 481 {
            proof {
                assert forall|o: SszOption<Vec<H256>>|
                    o.wf() && (#[trigger] o.ssz_enc()) == bytes@ implies false by {
                    if o.0 is None {
                        assert(o.ssz_enc()[0] == 0u8);
                    }
                }
            }
            if l < 481 {
                return Err(ContentItemDecodeError::InputTruncated);
            }
            return Err(ContentItemDecodeError::TrailingBytes);
        }
        let body = vstd::slice::slice_subrange(bytes, 1, l);
        let chunks = match decode_fixed_list(body, 32, 15) {
            Ok(c) => c,
            Err(e) => {
                proof {
                    assert((body@.len() as int) % 32 == 0 && (body@.len() as int) / 32 <= 15);
                }
                return Err(e);
            },
        };
        let ghost dv = chunks.deep_view();
        proof {
            lemma_vecs_deep_view(chunks@);
            assert(dv =~= Seq::new(chunks@.len(), |j: int| chunks@[j].deep_view()));
            lemma_concat_len(dv);
            lemma_sum_take_fixed(dv, 32, dv.len() as int);
            assert(dv.take(dv.len() as int) =~= dv);
            assert(32 * dv.len() == 480);
            assert(dv.len() == 15);
        }
        let n = chunks.len();
        let mut hs: Vec<H256> = Vec::new();
        let mut i: usize = 0;
        while i < n
            invariant
                i <= n,
                n == 15,
                n == chunks@.len(),
                dv == chunks.deep_view(),
                dv.len() == n,
                forall|j: int| 0 <= j < n ==> dv[j] == (#[trigger] chunks@[j])@,
                fixed_items_ok(dv, 32),
                hs@.len() == i,
                forall|j: int| 0 <= j < i ==> (#[trigger] hs@[j]).wf() && hs@[j]@ == dv[j],
            decreases n - i,
        {
            let h = H256 { bytes: vstd::slice::slice_to_vec(chunks[i].as_slice()) };
            hs.push(h);
            i = i + 1;
        }
        let o = SszOption::<Vec<H256>>(Some(hs));
        proof {
            let views = hash_views(o.0->0@);
            assert(views =~= dv) by {
                assert(forall|j: int| 0 <= j < n ==> (#[trigger] views[j]) == o.0->0@[j]@);
            }
            assert(o.ssz_enc() =~= bytes@) by {
                assert(concat_all(dv) == body@);
                assert(bytes@[0] == 1u8);
                assert(seq![1u8] + body@ =~= bytes@);
            }
        }
        Ok(o)
    }
}

/// A block header together with its optional epoch-accumulator proof.
#[derive(Clone, Debug, PartialEq, Eq)]
pub struct HeaderWithProof {
    pub header: Header,
    pub proof: SszOption<Vec<H256>>,
}

impl ContentItem for HeaderWithProof {
    open spec fn valid(&self) -> bool {
        &&& self.header.wf()
        &&& self.header@.len() <= 2048
        &&& self.proof.wf()
    }

    open spec fn enc(&self) -> Seq<u8> {
        container2_enc(self.header@, self.proof.ssz_enc())
    }

    fn encode(&self, buf: &mut Vec<u8>) {
        let f1 = vstd::slice::slice_to_vec(self.header.rlp.as_slice());
        let mut f2: Vec<u8> = Vec::new();
        self.proof.ssz_append(&mut f2);
        proof {
            assert(f2@ == self.proof.ssz_enc());
        }
        encode_container2(&f1, &f2, buf);
    }

    fn decode(buf: &[u8]) -> (r: Result<Self, ContentItemDecodeError>) {
        let (f1, f2) = match decode_container2(buf) {
            Ok(p) => p,
            Err(e) => {
                proof {
                    assert forall|v: HeaderWithProof|
                        v.valid() && (#[trigger] v.enc()) == buf@ implies false by {}
                }
                return Err(e);
            },
        };
        if f1.len() > 2048 {
            proof {
                assert forall|v: HeaderWithProof|
                    v.valid() && (#[trigger] v.enc()) == buf@ implies false by {
                    lemma_container2_injective(v.header@, v.proof.ssz_enc(), f1@, f2@);
                }
            }
            return Err(ContentItemDecodeError::BoundExceeded);
        }
        let header = match Header::from_rlp(f1) {
            Ok(h) => h,
            Err(e) => {
                proof {
                    assert forall|v: HeaderWithProof|
                        v.valid() && (#[trigger] v.enc()) == buf@ implies false by {
                        lemma_container2_injective(v.header@, v.proof.ssz_enc(), f1@, f2@);
                    }
                }
                return Err(e);
            },
        };
        let sszoption = match SszOption::<Vec<H256>>::from_ssz_bytes(f2.as_slice()) {
            Ok(o) => o,
            Err(e) => {
                proof {
                    assert forall|v: HeaderWithProof|
                        v.valid() && (#[trigger] v.enc()) == buf@ implies false by {
                        lemma_container2_injective(v.header@, v.proof.ssz_enc(), f1@, f2@);
                    }
                }
                return Err(e);
            },
        };
        Ok(HeaderWithProof { header, proof: sszoption })
    }
}


/// The minimal big-endian bytes of a nonnegative integer; empty for zero.
pub open spec fn be_min_bytes(n: int) -> Seq<u8>
    recommends
        n >= 0,
    decreases n,
{
    if n <= 0 {
        Seq::empty()
    } else {
        be_min_bytes(n / 256).push((n % 256) as u8)
    }
}

/// The canonical RLP prefix of a list whose payload has `n` bytes: a short
/// form for fewer than 56, a length-of-length form beyond.
pub open spec fn rlp_list_prefix(n: int) -> Seq<u8>
    recommends
        n >= 0,
{
    if n < 56 {
        seq![(192 + n) as u8]
    } else {
        seq![(247 + be_min_bytes(n).len()) as u8] + be_min_bytes(n)
    }
}

/// The exact shape of the minimal big-endian bytes over the first three
/// byte ranges.
pub proof fn lemma_be_min_bytes(n: int)
    requires
        0 <= n < 0x1000000,
    ensures
        n == 0 ==> be_min_bytes(n) == Seq::<u8>::empty(),
        0 < n < 0x100 ==> be_min_bytes(n) == seq![n as u8],
        0x100 <= n < 0x10000 ==> be_min_bytes(n) == seq![(n / 256) as u8, (n % 256) as u8],
        0x10000 <= n ==> be_min_bytes(n) == seq![
            (n / 65536) as u8,
            ((n / 256) % 256) as u8,
            (n % 256) as u8,
        ],
{
    reveal_with_fuel(be_min_bytes, 5);
    vstd::arithmetic::div_mod::lemma_div_denominator(n, 256, 256);
    if n == 0 {
    } else if n < 0x100 {
        assert(n / 256 == 0);
        assert(be_min_bytes(n) =~= seq![n as u8]);
    } else if n < 0x10000 {
        assert(1 <= n / 256 < 0x100);
        assert(be_min_bytes(n / 256) =~= seq![(n / 256) as u8]);
        assert(be_min_bytes(n) =~= seq![(n / 256) as u8, (n % 256) as u8]);
    } else {
        assert(0x100 <= n / 256 < 0x10000);
        assert(1 <= n / 65536 < 0x100);
        assert((n / 256) / 256 == n / 65536);
        assert(be_min_bytes(n / 256) =~= seq![(n / 65536) as u8, ((n / 256) % 256) as u8]);
        assert(be_min_bytes(n) =~= seq![(n / 65536) as u8, ((n / 256) % 256) as u8, (n % 256) as u8]);
    }
}

/// Appends the canonical RLP list prefix for a payload of `n` bytes.
pub fn encode_rlp_list_prefix(buf: &mut Vec<u8>, n: usize)
    requires
        n < 0x1000000,
    ensures
        final(buf)@ == old(buf)@ + rlp_list_prefix(n as int),
{
    proof {
        lemma_be_min_bytes(n as int);
    }
    if n < 56 {
        buf.push((192 + n) as u8);
        proof {
            assert(old(buf)@ + rlp_list_prefix(n as int) =~= buf@);
        }
    } else if n < 0x100 {
        buf.push(248);
        buf.push(n as u8);
        proof {
            assert(old(buf)@ + rlp_list_prefix(n as int) =~= buf@);
        }
    } else if n < 0x10000 {
        buf.push(249);
        buf.push((n / 256) as u8);
        buf.push((n % 256) as u8);
        proof {
            assert(old(buf)@ + rlp_list_prefix(n as int) =~= buf@);
        }
    } else {
        buf.push(250);
        buf.push((n / 65536) as u8);
        buf.push(((n / 256) % 256) as u8);
        buf.push((n % 256) as u8);
        proof {
            assert(old(buf)@ + rlp_list_prefix(n as int) =~= buf@);
        }
    }
}

/// Parses the canonical RLP list prefix at the head of `b`, requiring the
/// payload to fill the rest of `b` exactly. Returns the payload start.
pub fn parse_rlp_list_prefix(b: &[u8]) -> (r: Option<usize>)
    requires
        b@.len() <= 131072,
    ensures
        r matches Some(k) ==> 1 <= k <= b@.len() && b@ == rlp_list_prefix(b@.len() - k) + b@.skip(
            k as int,
        ),
        forall|p: Seq<u8>|
            b@ == #[trigger] (rlp_list_prefix(p.len() as int) + p) ==> (r matches Some(k) && k
                == b@.len() - p.len() && b@.skip(k as int) == p),
{
    let l = b.len();
    let ghost gb = b@;
    proof {
        assert forall|p: Seq<u8>|
            gb == #[trigger] (rlp_list_prefix(p.len() as int) + p) implies p.len() <= 131072
            && rlp_list_prefix(p.len() as int).len() >= 1 by {
            lemma_be_min_bytes(p.len() as int);
        }
    }
    if l == 0 {
        return None;
    }
    let b0 = b[0];
    if b0 < 192 {
        proof {
            assert forall|p: Seq<u8>|
                gb == #[trigger] (rlp_list_prefix(p.len() as int) + p) implies false by {
                lemma_be_min_bytes(p.len() as int);
                assert(gb[0] == rlp_list_prefix(p.len() as int)[0]);
            }
        }
        return None;
    }
    if b0 <= 247 {
        let ln = (b0 - 192) as usize;
        if l - 1 == ln {
            proof {
                assert(gb =~= rlp_list_prefix(gb.len() - 1) + gb.skip(1));
                assert forall|p: Seq<u8>|
                    gb == #[trigger] (rlp_list_prefix(p.len() as int) + p) implies 1 == gb.len()
                    - p.len() && gb.skip(1) == p by {
                    lemma_be_min_bytes(p.len() as int);
                    assert(gb[0] == rlp_list_prefix(p.len() as int)[0]);
                    assert(p.len() < 56);
                    assert(gb.skip(1) =~= p);
                }
            }
            return Some(1);
        }
        proof {
            assert forall|p: Seq<u8>|
                gb == #[trigger] (rlp_list_prefix(p.len() as int) + p) implies false by {
                lemma_be_min_bytes(p.len() as int);
                assert(gb[0] == rlp_list_prefix(p.len() as int)[0]);
                if p.len() >= 56 {
                    assert(gb[0] as int >= 248);
                }
            }
        }
        return None;
    }
    // length-of-length form; the payload bound keeps it to three bytes
    let ll = (b0 - 247) as usize;
    proof {
        assert forall|p: Seq<u8>|
            gb == #[trigger] (rlp_list_prefix(p.len() as int) + p) implies 56 <= p.len()
            && gb[0] == 247 + be_min_bytes(p.len() as int).len() && be_min_bytes(
            p.len() as int,
        ).len() <= 3 by {
            lemma_be_min_bytes(p.len() as int);
            assert(gb[0] == rlp_list_prefix(p.len() as int)[0]);
            if p.len() < 56 {
                assert(gb[0] as int == 192 + p.len());
            }
        }
    }
    if ll > 3 || l < 1 + ll {
        proof {
            assert forall|p: Seq<u8>|
                gb == #[trigger] (rlp_list_prefix(p.len() as int) + p) implies false by {
                lemma_be_min_bytes(p.len() as int);
            }
        }
        return None;
    }
    let mut ln: usize = 0;
    if ll == 1 {
        ln = b[1] as usize;
    } else if ll == 2 {
        ln = (b[1] as usize) * 256 + (b[2] as usize);
    } else {
        ln = (b[1] as usize) * 65536 + (b[2] as usize) * 256 + (b[3] as usize);
    }
    let ok = b[1] != 0 && ln >= 56 && l - 1 - ll == ln;
    proof {
        assert forall|p: Seq<u8>|
            gb == #[trigger] (rlp_list_prefix(p.len() as int) + p) implies (ok && 1 + ll == gb.len()
            - p.len() && gb.skip(1 + ll) == p) by {
            lemma_be_min_bytes(p.len() as int);
            let bm = be_min_bytes(p.len() as int);
            assert(bm.len() == ll);
            assert(forall|j: int| 0 <= j < bm.len() ==> gb[1 + j] == #[trigger] bm[j]);
            if ll == 1 {
                assert(gb[1] == (p.len() as int) as u8);
                assert(ln == p.len());
            } else if ll == 2 {
                assert(gb[1] == (p.len() as int / 256) as u8);
                assert(gb[2] == (p.len() as int % 256) as u8);
                assert(ln == 256 * (p.len() as int / 256) + (p.len() as int % 256));
                vstd::arithmetic::div_mod::lemma_fundamental_div_mod(p.len() as int, 256);
                assert(gb[1] != 0);
            } else {
                assert(gb[1] == (p.len() as int / 65536) as u8);
                assert(gb[2] == ((p.len() as int / 256) % 256) as u8);
                assert(gb[3] == (p.len() as int % 256) as u8);
                vstd::arithmetic::div_mod::lemma_fundamental_div_mod(p.len() as int, 256);
                vstd::arithmetic::div_mod::lemma_fundamental_div_mod(p.len() as int / 256, 256);
                vstd::arithmetic::div_mod::lemma_div_denominator(p.len() as int, 256, 256);
                assert(ln == 65536 * (p.len() as int / 65536) + 256 * ((p.len() as int / 256) % 256)
                    + (p.len() as int % 256));
                assert(gb[1] != 0);
            }
            assert(gb.skip(1 + ll) =~= p);
        }
    }
    if ok {
        proof {
            lemma_be_min_bytes((l - 1 - ll) as int);
            let bm = be_min_bytes((l - 1 - ll) as int);
            assert(bm.len() == ll) by {
                if ll == 1 {
                } else if ll == 2 {
                    assert(ln >= 0x100) by {
                        if b@[1] == 0 {
                        }
                        assert(ln == (b@[1] as int) * 256 + (b@[2] as int));
                    }
                } else {
                    assert(ln >= 0x10000) by {
                        assert(ln == (b@[1] as int) * 65536 + (b@[2] as int) * 256 + (b@[3] as int));
                    }
                }
            }
            assert(forall|j: int| 0 <= j < bm.len() ==> #[trigger] bm[j] == b@[1 + j]) by {
                let n = (l - 1 - ll) as int;
                if ll == 1 {
                    assert(bm =~= seq![n as u8]);
                    assert(n == b@[1] as int);
                } else if ll == 2 {
                    assert(n == (b@[1] as int) * 256 + (b@[2] as int));
                    vstd::arithmetic::div_mod::lemma_fundamental_div_mod_converse(
                        n,
                        256,
                        b@[1] as int,
                        b@[2] as int,
                    );
                } else {
                    assert(n == (b@[1] as int) * 65536 + (b@[2] as int) * 256 + (b@[3] as int));
                    vstd::arithmetic::div_mod::lemma_fundamental_div_mod_converse(
                        n,
                        256,
                        (b@[1] as int) * 256 + (b@[2] as int),
                        b@[3] as int,
                    );
                    vstd::arithmetic::div_mod::lemma_fundamental_div_mod_converse(
                        n / 256,
                        256,
                        b@[1] as int,
                        b@[2] as int,
                    );
                    vstd::arithmetic::div_mod::lemma_div_denominator(n, 256, 256);
                }
            }
            assert(gb =~= rlp_list_prefix(gb.len() - (1 + ll)) + gb.skip(1 + ll));
        }
        return Some(1 + ll);
    }
    proof {
        assert forall|p: Seq<u8>|
            gb == #[trigger] (rlp_list_prefix(p.len() as int) + p) implies false by {}
    }
    None
}


/// The RLP views of a header sequence.
pub open spec fn header_views(hs: Seq<Header>) -> Seq<Seq<u8>> {
    hs.map_values(|h: Header| h@)
}

/// Every header in the sequence is well-formed.
pub open spec fn all_headers_wf(hs: Seq<Header>) -> bool {
    forall|i: int| 0 <= i < hs.len() ==> (#[trigger] hs[i]).wf()
}

/// The single RLP list holding all uncles: a canonical list prefix, then
/// the concatenated header encodings.
pub open spec fn uncles_enc(hs: Seq<Header>) -> Seq<u8> {
    rlp_list_prefix(sum_lens(header_views(hs))) + concat_all(header_views(hs))
}

/// Encodes the uncles as one RLP list, appending to `buf`.
fn encode_uncles(hs: &Vec<Header>, buf: &mut Vec<u8>)
    requires
        uncles_enc(hs@).len() <= 131072,
    ensures
        final(buf)@ == old(buf)@ + uncles_enc(hs@),
{
    let ghost views = header_views(hs@);
    proof {
        assert(forall|j: int| 0 <= j < hs@.len() ==> (#[trigger] views[j]) == hs@[j]@);
        lemma_concat_len(views);
        lemma_sum_lens_nonneg(views);
        lemma_be_min_bytes(sum_lens(views));
    }
    let mut payload_len: usize = 0;
    let n = hs.len();
    let mut i: usize = 0;
    while i < n
        invariant
            i <= n,
            n == hs@.len(),
            views == header_views(hs@),
            forall|j: int| 0 <= j < n ==> (#[trigger] views[j]) == hs@[j]@,
            payload_len == sum_lens(views.take(i as int)),
            sum_lens(views) < 0x1000000,
        decreases n - i,
    {
        proof {
            lemma_sum_take_succ(views, i as int);
            lemma_sum_take_le(views, i + 1);
            lemma_sum_take_le(views, i as int);
        }
        payload_len = payload_len + hs[i].rlp_bytes().len();
        i = i + 1;
    }
    proof {
        assert(views.take(n as int) =~= views);
    }
    encode_rlp_list_prefix(buf, payload_len);
    let mut k: usize = 0;
    proof {
        assert(views.take(0) =~= Seq::<Seq<u8>>::empty());
        assert(buf@ + concat_all(views.take(0)) =~= buf@);
    }
    while k < n
        invariant
            k <= n,
            n == hs@.len(),
            views == header_views(hs@),
            forall|j: int| 0 <= j < n ==> (#[trigger] views[j]) == hs@[j]@,
            buf@ == old(buf)@ + rlp_list_prefix(sum_lens(views)) + concat_all(views.take(k as int)),
        decreases n - k,
    {
        proof {
            assert(views.take(k + 1) =~= views.take(k as int).push(views[k as int]));
            lemma_concat_push(views.take(k as int), views[k as int]);
        }
        push_bytes(buf, hs[k].rlp.as_slice());
        proof {
            assert(old(buf)@ + rlp_list_prefix(sum_lens(views)) + concat_all(views.take(k as int))
                + hs@[k as int]@ =~= old(buf)@ + rlp_list_prefix(sum_lens(views)) + (concat_all(
                views.take(k as int),
            ) + hs@[k as int]@));
        }
        k = k + 1;
    }
    proof {
        assert(views.take(n as int) =~= views);
        assert(old(buf)@ + rlp_list_prefix(sum_lens(views)) + concat_all(views) =~= old(buf)@ + (
        rlp_list_prefix(sum_lens(views)) + concat_all(views)));
    }
}


/// If a blob both carries a canonical list prefix for its own tail and is
/// the uncles encoding of some header sequence, the two decompositions
/// agree.
proof fn lemma_uncles_align(blob: Seq<u8>, k: int, hs: Seq<Header>)
    requires
        1 <= k <= blob.len(),
        blob.len() <= 131072,
        blob == rlp_list_prefix(blob.len() - k) + blob.skip(k),
        uncles_enc(hs) == blob,
    ensures
        concat_all(header_views(hs)) == blob.skip(k),
        sum_lens(header_views(hs)) == blob.len() - k,
{
    let views = header_views(hs);
    lemma_concat_len(views);
    lemma_sum_lens_nonneg(views);
    let one = rlp_list_prefix(blob.len() - k);
    let l1 = blob.len() - k;
    let l2 = sum_lens(views);
    let pre2 = rlp_list_prefix(l2);
    assert(blob.len() == pre2.len() + l2);
    assert(l2 <= blob.len());
    lemma_be_min_bytes(l1);
    lemma_be_min_bytes(l2);
    assert(one.len() >= 1 && pre2.len() >= 1);
    assert(blob[0] == one[0]);
    assert(blob[0] == pre2[0]);
    if l1 < 56 && l2 < 56 {
        assert(192 + l1 == 192 + l2);
    } else if l1 < 56 {
        assert(one[0] as int == 192 + l1 && one[0] as int <= 247);
        assert(pre2[0] as int == 247 + be_min_bytes(l2).len() && pre2[0] as int >= 248);
    } else if l2 < 56 {
        assert(pre2[0] as int == 192 + l2 && pre2[0] as int <= 247);
        assert(one[0] as int == 247 + be_min_bytes(l1).len() && one[0] as int >= 248);
    } else {
        assert(one[0] as int == 247 + be_min_bytes(l1).len());
        assert(pre2[0] as int == 247 + be_min_bytes(l2).len());
        assert(be_min_bytes(l1).len() == be_min_bytes(l2).len());
        assert(one.len() == pre2.len());
        assert(k == pre2.len());
    }
    assert(k == pre2.len());
    assert(concat_all(views) =~= blob.skip(k));
}

/// Decodes the uncles blob: a canonical RLP list prefix followed by a
/// run of RLP-encoded headers that fill the payload exactly.
fn decode_uncles(blob: &[u8]) -> (r: Result<Vec<Header>, ContentItemDecodeError>)
    requires
        blob@.len() <= 131072,
    ensures
        r matches Ok(v) ==> all_headers_wf(v@) && uncles_enc(v@) == blob@,
        forall|hs: Seq<Header>|
            all_headers_wf(hs) && (#[trigger] uncles_enc(hs)) == blob@ ==> r is Ok,
        r is Err ==> r == Err::<Vec<Header>, ContentItemDecodeError>(
            ContentItemDecodeError::InnerRlp,
        ),
{
    let k = match parse_rlp_list_prefix(blob) {
        Some(k) => k,
        None => {
            proof {
                assert forall|hs: Seq<Header>|
                    all_headers_wf(hs) && (#[trigger] uncles_enc(hs)) == blob@ implies false by {
                    let p = concat_all(header_views(hs));
                    lemma_concat_len(header_views(hs));
                    assert(blob@ == rlp_list_prefix(p.len() as int) + p);
                }
            }
            return Err(ContentItemDecodeError::InnerRlp);
        },
    };
    let l = blob.len();
    let mut out: Vec<Header> = Vec::new();
    let mut pos: usize = k;
    proof {
        assert(header_views(out@) =~= Seq::<Seq<u8>>::empty());
        assert(concat_all(header_views(out@)) =~= blob@.subrange(k as int, k as int));
    }
    while pos < l
        invariant
            k <= pos <= l,
            1 <= k,
            l == blob@.len(),
            l <= 131072,
            blob@ == rlp_list_prefix(l - k) + blob@.skip(k as int),
            out@.len() == header_views(out@).len(),
            all_headers_wf(out@),
            concat_all(header_views(out@)) == blob@.subrange(k as int, pos as int),
            forall|hs: Seq<Header>|
                all_headers_wf(hs) && (#[trigger] uncles_enc(hs)) == blob@ ==> (out@.len()
                    <= hs.len() && header_views(out@) == header_views(hs).take(out@.len() as int)),
        decreases l - pos,
    {
        let rest = vstd::slice::slice_subrange(blob, pos, l);
        let step = match try_decode_header(rest) {
            Some((num, rem)) => {
                let used = (l - pos) - rem;
                let chunk = vstd::slice::slice_to_vec(vstd::slice::slice_subrange(rest, 0, used));
                let h = Header { number: num, rlp: chunk };
                proof {
                    assert(h@ == rest@.subrange(0, used as int));
                    assert(h.wf());
                }
                (used, h)
            },
            None => {
                proof {
                    assert forall|hs: Seq<Header>|
                        all_headers_wf(hs) && (#[trigger] uncles_enc(hs)) == blob@ implies false by {
                        let views = header_views(hs);
                        let m = out@.len() as int;
                        lemma_concat_len(views);
                        lemma_sum_lens_nonneg(views);
                        lemma_uncles_align(blob@, k as int, hs);
                        assert(header_views(out@) == views.take(m));
                        lemma_concat_len(header_views(out@));
                        lemma_concat_len(views.take(m));
                        assert(m < views.len()) by {
                            lemma_sum_take_le(views, m);
                            if m >= views.len() {
                                assert(views.take(m) =~= views);
                            }
                        }
                        lemma_concat_index(views, m);
                        let s0 = sum_lens(views.take(m));
                        assert(s0 == pos - k);
                        assert(rest@.subrange(0, views[m].len() as int) == views[m]) by {
                            assert(rest@.subrange(0, views[m].len() as int) =~= concat_all(
                                views,
                            ).subrange(s0, s0 + views[m].len()));
                        }
                        assert(header_rlp_ok(rest@.subrange(0, views[m].len() as int))) by {
                            assert(views[m] == hs[m]@);
                            assert(hs[m].wf());
                            assert(header_rlp_ok(hs[m]@));
                        }
                        assert(false);
                    }
                }
                return Err(ContentItemDecodeError::InnerRlp);
            },
        };
        let ghost old_out = out@;
        out.push(step.1);
        proof {
            let m = old_out.len() as int;
            let used = step.0;
            assert(out@.len() >= 1);
            assert(forall|j: int| 0 <= j < m ==> out@[j] == #[trigger] old_out[j]);
            assert(forall|j: int|
                0 <= j < m ==> #[trigger] header_views(out@)[j] == out@[j]@ && header_views(
                    old_out,
                )[j] == old_out[j]@);
            assert(header_views(out@)[m] == out@[m]@);
            assert(header_views(out@) =~= header_views(old_out).push(out@[m]@));
            assert(concat_all(header_views(old_out)) == blob@.subrange(k as int, pos as int));
            lemma_concat_push(header_views(old_out), out@[m]@);
            assert(out@[m]@ == blob@.subrange(pos as int, pos + used));
            assert(blob@.subrange(k as int, pos as int) + blob@.subrange(pos as int, pos + used)
                =~= blob@.subrange(k as int, pos + used));
            assert forall|hs: Seq<Header>|
                all_headers_wf(hs) && (#[trigger] uncles_enc(hs)) == blob@ implies (out@.len()
                <= hs.len() && header_views(out@) == header_views(hs).take(out@.len() as int)) by {
                let views = header_views(hs);
                lemma_concat_len(views);
                lemma_sum_lens_nonneg(views);
                lemma_uncles_align(blob@, k as int, hs);
                assert(header_views(old_out) == views.take(m)) by {
                    assert(old_out.len() <= hs.len() && header_views(old_out) == views.take(
                        old_out.len() as int,
                    ));
                }
                assert(m < views.len()) by {
                    lemma_sum_take_le(views, m);
                    if m >= views.len() {
                        assert(views.take(m) =~= views);
                    }
                }
                lemma_concat_index(views, m);
                lemma_concat_len(header_views(old_out));
                lemma_concat_len(views.take(m));
                let s0 = sum_lens(views.take(m));
                assert(s0 == pos - k);
                assert(rest@.subrange(0, views[m].len() as int) == views[m]) by {
                    assert(rest@.subrange(0, views[m].len() as int) =~= concat_all(views).subrange(
                        s0,
                        s0 + views[m].len(),
                    ));
                }
                assert(header_rlp_ok(rest@.subrange(0, views[m].len() as int))) by {
                    assert(views[m] == hs[m]@);
                    assert(hs[m].wf());
                    assert(header_rlp_ok(hs[m]@));
                }
                assert(used == views[m].len());
                assert(out@[m]@ == views[m]);
                assert(header_views(out@) =~= views.take(m + 1)) by {
                    assert(views.take(m + 1) =~= views.take(m).push(views[m]));
                }
            }
        }
        pos = pos + step.0;
    }
    proof {
        let views = header_views(out@);
        lemma_concat_len(views);
        assert(concat_all(views) == blob@.subrange(k as int, l as int));
        assert(blob@.subrange(k as int, l as int) =~= blob@.skip(k as int));
        assert(uncles_enc(out@) =~= blob@) by {
            assert(sum_lens(views) == l - k);
            assert(rlp_list_prefix(l - k) + blob@.skip(k as int) =~= blob@);
        }
    }
    Ok(out)
}


/// The encoded forms of a transaction sequence.
pub open spec fn tx_encs(txs: Seq<TransactionSigned>) -> Seq<Seq<u8>> {
    txs.map_values(|t: TransactionSigned| t@)
}

/// A block body: the signed transactions, each framed in its own SSZ byte
/// list, and the uncles as one RLP list in a single byte list.
#[derive(Clone, Debug, PartialEq, Eq)]
pub struct BlockBody {
    pub transactions: Vec<TransactionSigned>,
    pub uncles: Vec<Header>,
}

impl ContentItem for BlockBody {
    open spec fn valid(&self) -> bool {
        &&& self.transactions@.len() <= 16384
        &&& forall|i: int|
            0 <= i < self.transactions@.len() ==> (#[trigger] self.transactions@[i]).wf()
                && self.transactions@[i]@.len() <= 0x1000000
        &&& 8 + 4 * self.transactions@.len() + sum_lens(tx_encs(self.transactions@))
            < 0x1_0000_0000
        &&& all_headers_wf(self.uncles@)
        &&& uncles_enc(self.uncles@).len() <= 131072
    }

    open spec fn enc(&self) -> Seq<u8> {
        container2_enc(var_list_enc(tx_encs(self.transactions@)), uncles_enc(self.uncles@))
    }

    fn encode(&self, buf: &mut Vec<u8>) {
        let ghost encs = tx_encs(self.transactions@);
        proof {
            lemma_sum_lens_nonneg(encs);
        }
        let n = self.transactions.len();
        let mut items: Vec<Vec<u8>> = Vec::new();
        let mut i: usize = 0;
        while i < n
            invariant
                i <= n,
                n == self.transactions@.len(),
                encs == tx_encs(self.transactions@),
                items@.len() == i,
                forall|j: int| 0 <= j < i ==> (#[trigger] items@[j])@ == encs[j],
            decreases n - i,
        {
            proof {
                assert(encs[i as int] == self.transactions@[i as int]@);
            }
            items.push(vstd::slice::slice_to_vec(self.transactions[i].rlp.as_slice()));
            i = i + 1;
        }
        let mut f1: Vec<u8> = Vec::new();
        proof {
            lemma_vecs_deep_view(items@);
            assert(items.deep_view() =~= encs);
        }
        encode_var_list(&items, &mut f1);
        let mut f2: Vec<u8> = Vec::new();
        encode_uncles(&self.uncles, &mut f2);
        proof {
            assert(f1@ == var_list_enc(encs));
            if encs.len() > 0 {
                crate::ssz::lemma_offset_table_len(encs, 4 * encs.len() as int);
                lemma_concat_len(encs);
            }
            assert(8 + f1@.len() < 0x1_0000_0000);
        }
        encode_container2(&f1, &f2, buf);
    }

    fn decode(buf: &[u8]) -> (r: Result<Self, ContentItemDecodeError>) {
        let (f1, f2) = match decode_container2(buf) {
            Ok(p) => p,
            Err(e) => {
                proof {
                    assert forall|v: BlockBody|
                        v.valid() && (#[trigger] v.enc()) == buf@ implies false by {
                        let encs = tx_encs(v.transactions@);
                        if encs.len() > 0 {
                            crate::ssz::lemma_offset_table_len(encs, 4 * encs.len() as int);
                            lemma_concat_len(encs);
                        }
                        assert(8 + var_list_enc(encs).len() < 0x1_0000_0000);
                    }
                }
                return Err(e);
            },
        };
        if f2.len() > 131072 {
            proof {
                assert forall|v: BlockBody|
                    v.valid() && (#[trigger] v.enc()) == buf@ implies false by {
                    let encs = tx_encs(v.transactions@);
                    if encs.len() > 0 {
                        crate::ssz::lemma_offset_table_len(encs, 4 * encs.len() as int);
                        lemma_concat_len(encs);
                    }
                    lemma_container2_injective(
                        var_list_enc(encs),
                        uncles_enc(v.uncles@),
                        f1@,
                        f2@,
                    );
                }
            }
            return Err(ContentItemDecodeError::BoundExceeded);
        }
        let chunks = match decode_var_list(f1.as_slice(), 16384, 0x1000000) {
            Ok(c) => c,
            Err(e) => {
                proof {
                    assert forall|v: BlockBody|
                        v.valid() && (#[trigger] v.enc()) == buf@ implies false by {
                        let encs = tx_encs(v.transactions@);
                        if encs.len() > 0 {
                            crate::ssz::lemma_offset_table_len(encs, 4 * encs.len() as int);
                            lemma_concat_len(encs);
                        }
                        lemma_container2_injective(
                            var_list_enc(encs),
                            uncles_enc(v.uncles@),
                            f1@,
                            f2@,
                        );
                        assert(forall|j: int|
                            0 <= j < encs.len() ==> (#[trigger] encs[j]) == v.transactions@[j]@);
                        assert(var_items_bounded(encs, 16384, 0x1000000));
                        assert(var_list_fits(encs));
                        assert(var_list_decodable(f1@, 16384, 0x1000000));
                    }
                }
                return Err(e);
            },
        };
        let ghost dv = chunks.deep_view();
        proof {
            lemma_vecs_deep_view(chunks@);
            assert(dv =~= Seq::new(chunks@.len(), |j: int| chunks@[j].deep_view()));
        }
        let n = chunks.len();
        let mut transactions: Vec<TransactionSigned> = Vec::new();
        let mut i: usize = 0;
        while i < n
            invariant
                i <= n,
                n == chunks@.len(),
                dv == chunks.deep_view(),
                dv.len() == n,
                forall|j: int| 0 <= j < n ==> dv[j] == (#[trigger] chunks@[j])@,
                var_items_bounded(dv, 16384, 0x1000000),
                var_list_enc(dv) == f1@,
                8 + f1@.len() < 0x1_0000_0000,
                buf@ == container2_enc(f1@, f2@),
                transactions@.len() == i,
                forall|j: int| 0 <= j < i ==> (#[trigger] transactions@[j]).wf(),
                forall|j: int| 0 <= j < i ==> (#[trigger] transactions@[j])@ == dv[j],
            decreases n - i,
        {
            let t = match TransactionSigned::from_rlp(vstd::slice::slice_to_vec(
                chunks[i].as_slice(),
            )) {
                Ok(t) => t,
                Err(e) => {
                    proof {
                        assert forall|v: BlockBody|
                            v.valid() && (#[trigger] v.enc()) == buf@ implies false by {
                            let encs = tx_encs(v.transactions@);
                            if encs.len() > 0 {
                                crate::ssz::lemma_offset_table_len(encs, 4 * encs.len() as int);
                                lemma_concat_len(encs);
                            }
                            lemma_container2_injective(
                                var_list_enc(encs),
                                uncles_enc(v.uncles@),
                                f1@,
                                f2@,
                            );
                            assert(forall|j: int|
                                0 <= j < encs.len() ==> (#[trigger] encs[j])
                                    == v.transactions@[j]@);
                            crate::ssz::lemma_offset_table_len(dv, 4 * dv.len() as int);
                            lemma_concat_len(dv);
                            lemma_sum_lens_nonneg(dv);
                            assert(var_list_fits(dv));
                            assert(var_list_fits(encs));
                            lemma_var_list_enc_injective(encs, dv);
                            assert(dv[i as int] == v.transactions@[i as int]@);
                            assert(tx_rlp_ok(dv[i as int]));
                        }
                    }
                    return Err(e);
                },
            };
            transactions.push(t);
            i = i + 1;
        }
        let uncles = match decode_uncles(f2.as_slice()) {
            Ok(u) => u,
            Err(e) => {
                proof {
                    assert forall|v: BlockBody|
                        v.valid() && (#[trigger] v.enc()) == buf@ implies false by {
                        let encs = tx_encs(v.transactions@);
                        if encs.len() > 0 {
                            crate::ssz::lemma_offset_table_len(encs, 4 * encs.len() as int);
                            lemma_concat_len(encs);
                        }
                        lemma_container2_injective(
                            var_list_enc(encs),
                            uncles_enc(v.uncles@),
                            f1@,
                            f2@,
                        );
                        assert(all_headers_wf(v.uncles@) && uncles_enc(v.uncles@) == f2@);
                    }
                }
                return Err(e);
            },
        };
        let body = BlockBody { transactions, uncles };
        proof {
            let encs = tx_encs(body.transactions@);
            assert(encs =~= dv) by {
                assert(forall|j: int|
                    0 <= j < n ==> (#[trigger] encs[j]) == body.transactions@[j]@);
            }
            if dv.len() > 0 {
                crate::ssz::lemma_offset_table_len(dv, 4 * dv.len() as int);
                lemma_concat_len(dv);
            }
            lemma_sum_lens_nonneg(dv);
            assert(8 + 4 * dv.len() + sum_lens(dv) < 0x1_0000_0000);
        }
        Ok(body)
    }
}


/// Some valid header-with-proof encodes to `b`.
pub open spec fn hwp_decodable(b: Seq<u8>) -> bool {
    exists|v: HeaderWithProof| v.valid() && (#[trigger] v.enc()) == b
}

/// Some valid bare header encodes to `b`.
pub open spec fn header_decodable(b: Seq<u8>) -> bool {
    exists|v: Header| v.valid() && (#[trigger] v.enc()) == b
}

/// Some valid block body encodes to `b`.
pub open spec fn body_decodable(b: Seq<u8>) -> bool {
    exists|v: BlockBody| v.valid() && (#[trigger] v.enc()) == b
}

/// Some valid receipt list encodes to `b`.
pub open spec fn receipts_decodable(b: Seq<u8>) -> bool {
    exists|v: Vec<Receipt>| v.valid() && (#[trigger] v.enc()) == b
}

/// Some valid epoch accumulator encodes to `b`.
pub open spec fn acc_decodable(b: Seq<u8>) -> bool {
    exists|v: EpochAccumulator| v.valid() && (#[trigger] v.enc()) == b
}

/// Some valid content item of any variant encodes to `b`.
pub open spec fn any_content_decodable(b: Seq<u8>) -> bool {
    hwp_decodable(b) || header_decodable(b) || body_decodable(b) || receipts_decodable(b)
        || acc_decodable(b)
}

/// The bytes a hex string carries.
pub open spec fn content_bytes_of(s: Seq<char>) -> Seq<u8> {
    hex_val_of(strip_hex_prefix(s))
}

/// Portal history content items. Supports both the header-with-proof and
/// the deprecated bare-header content types.
#[derive(Clone, Debug, PartialEq, Eq)]
pub enum HistoryContentItem {
    BlockHeaderWithProof(HeaderWithProof),
    BlockHeader(Header),
    BlockBody(BlockBody),
    Receipts(Vec<Receipt>),
    EpochAccumulator(EpochAccumulator),
}

impl HistoryContentItem {
    /// The carried variant is within its schema bounds.
    pub open spec fn valid(&self) -> bool {
        match self {
            HistoryContentItem::BlockHeaderWithProof(v) => v.valid(),
            HistoryContentItem::BlockHeader(v) => v.valid(),
            HistoryContentItem::BlockBody(v) => v.valid(),
            HistoryContentItem::Receipts(v) => v.valid(),
            HistoryContentItem::EpochAccumulator(v) => v.valid(),
        }
    }

    /// The variant's byte encoding; no discriminator is added.
    pub open spec fn enc(&self) -> Seq<u8> {
        match self {
            HistoryContentItem::BlockHeaderWithProof(v) => v.enc(),
            HistoryContentItem::BlockHeader(v) => v.enc(),
            HistoryContentItem::BlockBody(v) => v.enc(),
            HistoryContentItem::Receipts(v) => v.enc(),
            HistoryContentItem::EpochAccumulator(v) => v.enc(),
        }
    }

    /// Serializes the item: the variant's bytes behind the hex framing.
    pub fn serialize(&self) -> (r: String)
        requires
            self.valid(),
        ensures
            r@ == hex_encoding_of(self.enc()),
    {
        let mut encoded: Vec<u8> = Vec::new();
        match self {
            HistoryContentItem::BlockHeaderWithProof(item) => item.encode(&mut encoded),
            HistoryContentItem::BlockHeader(item) => item.encode(&mut encoded),
            HistoryContentItem::BlockBody(item) => item.encode(&mut encoded),
            HistoryContentItem::Receipts(item) => item.encode(&mut encoded),
            HistoryContentItem::EpochAccumulator(item) => item.encode(&mut encoded),
        }
        hex_encode(encoded.as_slice())
    }

    /// Deserializes a hex string by trial-decoding the variants in a
    /// fixed order: header-with-proof, bare header, block body, receipt
    /// list, epoch accumulator. The first success wins; if every variant
    /// refuses, the item is rejected as a whole.
    pub fn deserialize(s: &str) -> (r: Result<Self, ContentItemDecodeError>)
        ensures
            !is_hex_body(strip_hex_prefix(s@)) ==> r == Err::<
                HistoryContentItem,
                ContentItemDecodeError,
            >(ContentItemDecodeError::InvalidHex),
            is_hex_body(strip_hex_prefix(s@)) && hwp_decodable(content_bytes_of(s@)) ==> (r matches Ok(
                item,
            ) && item matches HistoryContentItem::BlockHeaderWithProof(v) && v.valid() && v.enc()
                == content_bytes_of(s@)),
            is_hex_body(strip_hex_prefix(s@)) && !hwp_decodable(content_bytes_of(s@))
                && header_decodable(content_bytes_of(s@)) ==> (r matches Ok(item)
                && item matches HistoryContentItem::BlockHeader(v) && v.valid() && v.enc()
                == content_bytes_of(s@)),
            is_hex_body(strip_hex_prefix(s@)) && !hwp_decodable(content_bytes_of(s@))
                && !header_decodable(content_bytes_of(s@)) && body_decodable(content_bytes_of(s@))
                ==> (r matches Ok(item) && item matches HistoryContentItem::BlockBody(v)
                && v.valid() && v.enc() == content_bytes_of(s@)),
            is_hex_body(strip_hex_prefix(s@)) && !hwp_decodable(content_bytes_of(s@))
                && !header_decodable(content_bytes_of(s@)) && !body_decodable(content_bytes_of(s@))
                && receipts_decodable(content_bytes_of(s@)) ==> (r matches Ok(item)
                && item matches HistoryContentItem::Receipts(v) && v.valid() && v.enc()
                == content_bytes_of(s@)),
            is_hex_body(strip_hex_prefix(s@)) && !hwp_decodable(content_bytes_of(s@))
                && !header_decodable(content_bytes_of(s@)) && !body_decodable(content_bytes_of(s@))
                && !receipts_decodable(content_bytes_of(s@)) && acc_decodable(content_bytes_of(s@))
                ==> (r matches Ok(item) && item matches HistoryContentItem::EpochAccumulator(v)
                && v.valid() && v.enc() == content_bytes_of(s@)),
            is_hex_body(strip_hex_prefix(s@)) && !any_content_decodable(content_bytes_of(s@)) ==> r
                == Err::<HistoryContentItem, ContentItemDecodeError>(
                ContentItemDecodeError::WrongVariant,
            ),
            r matches Ok(item) ==> item.valid() && is_hex_body(strip_hex_prefix(s@)) && item.enc()
                == content_bytes_of(s@),
    {
        let content_bytes = match hex_decode(s) {
            Ok(b) => b,
            Err(_) => {
                return Err(ContentItemDecodeError::InvalidHex);
            },
        };
        let b = content_bytes.as_slice();
        let ghost gb = content_bytes_of(s@);
        proof {
            assert(b@ == gb);
        }
        match HeaderWithProof::decode(b) {
            Ok(item) => {
                proof {
                    assert(hwp_decodable(gb)) by {
                        assert(item.valid() && item.enc() == gb);
                    }
                }
                return Ok(HistoryContentItem::BlockHeaderWithProof(item));
            },
            Err(_) => {
                proof {
                    assert(!hwp_decodable(gb)) by {
                        if hwp_decodable(gb) {
                            let v = choose|v: HeaderWithProof|
                                v.valid() && (#[trigger] v.enc()) == gb;
                        }
                    }
                }
            },
        }
        match <Header as ContentItem>::decode(b) {
            Ok(item) => {
                proof {
                    assert(header_decodable(gb)) by {
                        assert(item.valid() && item.enc() == gb);
                    }
                }
                return Ok(HistoryContentItem::BlockHeader(item));
            },
            Err(_) => {
                proof {
                    assert(!header_decodable(gb)) by {
                        if header_decodable(gb) {
                            let v = choose|v: Header| v.valid() && (#[trigger] v.enc()) == gb;
                        }
                    }
                }
            },
        }
        match BlockBody::decode(b) {
            Ok(item) => {
                proof {
                    assert(body_decodable(gb)) by {
                        assert(item.valid() && item.enc() == gb);
                    }
                }
                return Ok(HistoryContentItem::BlockBody(item));
            },
            Err(_) => {
                proof {
                    assert(!body_decodable(gb)) by {
                        if body_decodable(gb) {
                            let v = choose|v: BlockBody| v.valid() && (#[trigger] v.enc()) == gb;
                        }
                    }
                }
            },
        }
        match <Vec<Receipt> as ContentItem>::decode(b) {
            Ok(item) => {
                proof {
                    assert(receipts_decodable(gb)) by {
                        assert(item.valid() && item.enc() == gb);
                    }
                }
                return Ok(HistoryContentItem::Receipts(item));
            },
            Err(_) => {
                proof {
                    assert(!receipts_decodable(gb)) by {
                        if receipts_decodable(gb) {
                            let v = choose|v: Vec<Receipt>| v.valid() && (#[trigger] v.enc()) == gb;
                        }
                    }
                }
            },
        }
        match EpochAccumulator::decode(b) {
            Ok(item) => {
                proof {
                    assert(acc_decodable(gb)) by {
                        assert(item.valid() && item.enc() == gb);
                    }
                }
                return Ok(HistoryContentItem::EpochAccumulator(item));
            },
            Err(_) => {
                proof {
                    assert(!acc_decodable(gb)) by {
                        if acc_decodable(gb) {
                            let v = choose|v: EpochAccumulator|
                                v.valid() && (#[trigger] v.enc()) == gb;
                        }
                    }
                }
            },
        }
        Err(ContentItemDecodeError::WrongVariant)
    }
}


/// The union encoding's head and length, fixed by well-formedness: one
/// byte when absent, 481 bytes led by selector 1 when present.
pub proof fn lemma_union_enc_shape(o: SszOption<Vec<H256>>)
    requires
        o.wf(),
    ensures
        o.0 is None ==> o.ssz_enc() == seq![0u8],
        o.0 is Some ==> o.ssz_enc().len() == 481 && o.ssz_enc()[0] == 1u8,
{
    if o.0 is Some {
        let hs = o.0->0;
        let views = hash_views(hs@);
        assert(forall|j: int|
            0 <= j < views.len() ==> (#[trigger] views[j]).len() == 32 && views[j] == hs@[j]@);
        lemma_sum_take_fixed(views, 32, views.len() as int);
        assert(views.take(views.len() as int) =~= views);
        lemma_concat_len(views);
    }
}

/// Proof unions are injective: equal encodings carry the same presence
/// and, when present, the same hashes.
pub proof fn lemma_union_proof_injective(a: SszOption<Vec<H256>>, b: SszOption<Vec<H256>>)
    requires
        a.wf(),
        b.wf(),
        a.ssz_enc() == b.ssz_enc(),
    ensures
        a.0 is Some <==> b.0 is Some,
        a.0 matches Some(ha) ==> (b.0 matches Some(hb) && hash_views(ha@) == hash_views(hb@)),
{
    lemma_union_enc_shape(a);
    lemma_union_enc_shape(b);
    if a.0 is Some && b.0 is Some {
        let ha = a.0->0;
        let hb = b.0->0;
        let va = hash_views(ha@);
        let vb = hash_views(hb@);
        assert(forall|j: int|
            0 <= j < va.len() ==> (#[trigger] va[j]).len() == 32 && va[j] == ha@[j]@);
        assert(forall|j: int|
            0 <= j < vb.len() ==> (#[trigger] vb[j]).len() == 32 && vb[j] == hb@[j]@);
        assert(concat_all(va) =~= a.ssz_enc().skip(1));
        assert(concat_all(vb) =~= b.ssz_enc().skip(1));
        lemma_fixed_concat_injective(va, vb, 32);
    } else if a.0 is Some {
        assert(a.ssz_enc()[0] == 1u8 && b.ssz_enc()[0] == 0u8);
    } else if b.0 is Some {
        assert(a.ssz_enc()[0] == 0u8 && b.ssz_enc()[0] == 1u8);
    }
}

/// Value-to-binary round trip, bare header: equal encodings mean the same
/// header bytes and block number.
pub proof fn lemma_header_enc_injective(a: Header, b: Header)
    requires
        a.valid(),
        b.valid(),
        a.enc() == b.enc(),
    ensures
        a@ == b@,
        a.spec_number() == b.spec_number(),
{
}

/// Value-to-binary round trip, header-with-proof: equal encodings mean
/// the same header bytes, the same block number, and the same proof.
pub proof fn lemma_hwp_enc_injective(a: HeaderWithProof, b: HeaderWithProof)
    requires
        a.valid(),
        b.valid(),
        a.enc() == b.enc(),
    ensures
        a.header@ == b.header@,
        a.header.spec_number() == b.header.spec_number(),
        a.proof.0 is Some <==> b.proof.0 is Some,
        a.proof.0 matches Some(ha) ==> (b.proof.0 matches Some(hb) && hash_views(ha@)
            == hash_views(hb@)),
{
    lemma_container2_injective(a.header@, a.proof.ssz_enc(), b.header@, b.proof.ssz_enc());
    lemma_union_proof_injective(a.proof, b.proof);
}

/// Value-to-binary round trip, receipt list: equal encodings mean the
/// same receipts, byte for byte.
pub proof fn lemma_receipts_enc_injective(a: Vec<Receipt>, b: Vec<Receipt>)
    requires
        a.valid(),
        b.valid(),
        a.enc() == b.enc(),
    ensures
        a@.len() == b@.len(),
        forall|i: int| 0 <= i < a@.len() ==> (#[trigger] a@[i])@ == b@[i]@,
{
    lemma_var_list_enc_injective(receipt_encs(a@), receipt_encs(b@));
    assert(a@.len() == b@.len());
    assert forall|i: int| 0 <= i < a@.len() implies (#[trigger] a@[i])@ == b@[i]@ by {
        assert(receipt_encs(a@)[i] == a@[i]@);
        assert(receipt_encs(b@)[i] == b@[i]@);
        assert(receipt_encs(a@)[i] == receipt_encs(b@)[i]);
    }
}

/// Value-to-binary round trip, block body: equal encodings mean the same
/// transactions and the same uncles list encoding.
pub proof fn lemma_body_enc_injective(a: BlockBody, b: BlockBody)
    requires
        a.valid(),
        b.valid(),
        a.enc() == b.enc(),
    ensures
        a.transactions@.len() == b.transactions@.len(),
        forall|i: int|
            0 <= i < a.transactions@.len() ==> (#[trigger] a.transactions@[i])@
                == b.transactions@[i]@,
        uncles_enc(a.uncles@) == uncles_enc(b.uncles@),
{
    let ea = tx_encs(a.transactions@);
    let eb = tx_encs(b.transactions@);
    if ea.len() > 0 {
        crate::ssz::lemma_offset_table_len(ea, 4 * ea.len() as int);
        lemma_concat_len(ea);
    }
    if eb.len() > 0 {
        crate::ssz::lemma_offset_table_len(eb, 4 * eb.len() as int);
        lemma_concat_len(eb);
    }
    lemma_container2_injective(var_list_enc(ea), uncles_enc(a.uncles@), var_list_enc(eb), uncles_enc(
        b.uncles@,
    ));
    lemma_var_list_enc_injective(ea, eb);
    assert(a.transactions@.len() == b.transactions@.len());
    assert forall|i: int|
        0 <= i < a.transactions@.len() implies (#[trigger] a.transactions@[i])@
        == b.transactions@[i]@ by {
        assert(ea[i] == a.transactions@[i]@);
        assert(eb[i] == b.transactions@[i]@);
        assert(ea[i] == eb[i]);
    }
}

/// Value-to-binary round trip, epoch accumulator: equal encodings mean
/// the same records.
pub proof fn lemma_acc_enc_injective(a: EpochAccumulator, b: EpochAccumulator)
    requires
        a.valid(),
        b.valid(),
        a.enc() == b.enc(),
    ensures
        a.records@.len() == b.records@.len(),
        forall|i: int|
            0 <= i < a.records@.len() ==> (#[trigger] a.records@[i]).hash@ == b.records@[i].hash@
                && a.records@[i].total_difficulty@ == b.records@[i].total_difficulty@,
{
    let ea = record_encs(a.records@);
    let eb = record_encs(b.records@);
    assert(forall|j: int|
        0 <= j < ea.len() ==> (#[trigger] ea[j]) == a.records@[j].enc() && ea[j].len() == 64);
    assert(forall|j: int|
        0 <= j < eb.len() ==> (#[trigger] eb[j]) == b.records@[j].enc() && eb[j].len() == 64);
    lemma_fixed_concat_injective(ea, eb, 64);
    assert forall|i: int|
        0 <= i < a.records@.len() implies (#[trigger] a.records@[i]).hash@ == b.records@[i].hash@
        && a.records@[i].total_difficulty@ == b.records@[i].total_difficulty@ by {
        assert(ea[i] == a.records@[i].enc());
        assert(eb[i] == b.records@[i].enc());
        assert(ea[i] == eb[i]);
        assert(a.records@[i].enc() == b.records@[i].enc());
        assert(a.records@[i].hash@ =~= a.records@[i].enc().subrange(0, 32));
        assert(b.records@[i].hash@ =~= b.records@[i].enc().subrange(0, 32));
        assert(a.records@[i].total_difficulty@ =~= a.records@[i].enc().subrange(32, 64));
        assert(b.records@[i].total_difficulty@ =~= b.records@[i].enc().subrange(32, 64));
    }
}

/// Trailing bytes are rejected, header-with-proof: no valid value
/// encodes to a valid encoding with a nonempty suffix.
pub proof fn lemma_hwp_rejects_trailing(v: HeaderWithProof, s: Seq<u8>)
    requires
        v.valid(),
        s.len() > 0,
    ensures
        !hwp_decodable(v.enc() + s),
{
    if hwp_decodable(v.enc() + s) {
        let w = choose|w: HeaderWithProof| w.valid() && (#[trigger] w.enc()) == v.enc() + s;
        let e = v.enc() + s;
        lemma_container2_parts(v.header@, v.proof.ssz_enc());
        lemma_container2_parts(w.header@, w.proof.ssz_enc());
        lemma_union_enc_shape(v.proof);
        lemma_union_enc_shape(w.proof);
        crate::ssz::lemma_le32(8 + v.header@.len() as int);
        crate::ssz::lemma_le32(8 + w.header@.len() as int);
        assert(e.subrange(4, 8) == v.enc().subrange(4, 8)) by {
            assert(e.subrange(4, 8) =~= v.enc().subrange(4, 8));
        }
        assert(w.header@.len() == v.header@.len());
        assert(w.proof.ssz_enc() =~= v.proof.ssz_enc() + s) by {
            let hl = v.header@.len() as int;
            assert(w.proof.ssz_enc() == e.subrange(8 + hl, e.len() as int));
            assert(v.proof.ssz_enc() == v.enc().subrange(8 + hl, v.enc().len() as int));
        }
        assert(false);
    }
}

/// Trailing bytes are rejected, block body: no valid value encodes to a
/// valid encoding with a nonempty suffix; the suffix would land in the
/// uncles list, whose prefix pins its exact length.
pub proof fn lemma_body_rejects_trailing(v: BlockBody, s: Seq<u8>)
    requires
        v.valid(),
        s.len() > 0,
    ensures
        !body_decodable(v.enc() + s),
{
    if body_decodable(v.enc() + s) {
        let w = choose|w: BlockBody| w.valid() && (#[trigger] w.enc()) == v.enc() + s;
        let e = v.enc() + s;
        let fv = var_list_enc(tx_encs(v.transactions@));
        let fw = var_list_enc(tx_encs(w.transactions@));
        let uv = uncles_enc(v.uncles@);
        let uw = uncles_enc(w.uncles@);
        if tx_encs(v.transactions@).len() > 0 {
            crate::ssz::lemma_offset_table_len(
                tx_encs(v.transactions@),
                4 * tx_encs(v.transactions@).len() as int,
            );
            lemma_concat_len(tx_encs(v.transactions@));
        }
        if tx_encs(w.transactions@).len() > 0 {
            crate::ssz::lemma_offset_table_len(
                tx_encs(w.transactions@),
                4 * tx_encs(w.transactions@).len() as int,
            );
            lemma_concat_len(tx_encs(w.transactions@));
        }
        lemma_container2_parts(fv, uv);
        lemma_container2_parts(fw, uw);
        crate::ssz::lemma_le32(8 + fv.len() as int);
        crate::ssz::lemma_le32(8 + fw.len() as int);
        assert(e.subrange(4, 8) == v.enc().subrange(4, 8)) by {
            assert(e.subrange(4, 8) =~= v.enc().subrange(4, 8));
        }
        assert(fw.len() == fv.len());
        assert(uw =~= uv + s) by {
            let hl = fv.len() as int;
            assert(uw == e.subrange(8 + hl, e.len() as int));
            assert(uv == v.enc().subrange(8 + hl, v.enc().len() as int));
        }
        let la = sum_lens(header_views(v.uncles@));
        let lb = sum_lens(header_views(w.uncles@));
        lemma_concat_len(header_views(v.uncles@));
        lemma_concat_len(header_views(w.uncles@));
        lemma_sum_lens_nonneg(header_views(v.uncles@));
        lemma_sum_lens_nonneg(header_views(w.uncles@));
        lemma_be_min_bytes(la);
        lemma_be_min_bytes(lb);
        let pa = rlp_list_prefix(la);
        let pb = rlp_list_prefix(lb);
        assert(uv[0] == pa[0]);
        assert(uw[0] == pb[0]);
        assert(uv[0] == uw[0]);
        if la < 56 && lb < 56 {
            assert(192 + la == 192 + lb);
            assert(uw.len() == 1 + lb && uv.len() == 1 + la);
        } else if la < 56 {
            assert(pa[0] as int <= 247 && pb[0] as int >= 248);
        } else if lb < 56 {
            assert(pb[0] as int <= 247 && pa[0] as int >= 248);
        } else {
            assert(pa[0] as int == 247 + be_min_bytes(la).len());
            assert(pb[0] as int == 247 + be_min_bytes(lb).len());
            assert(be_min_bytes(la).len() == be_min_bytes(lb).len());
            let ll = be_min_bytes(la).len() as int;
            assert(forall|j: int| 0 <= j < ll ==> uv[1 + j] == #[trigger] be_min_bytes(la)[j]);
            assert(forall|j: int| 0 <= j < ll ==> uw[1 + j] == #[trigger] be_min_bytes(lb)[j]);
            assert(be_min_bytes(la) =~= be_min_bytes(lb)) by {
                assert(forall|j: int|
                    0 <= j < ll ==> #[trigger] be_min_bytes(la)[j] == be_min_bytes(lb)[j]) by {
                    assert(forall|j: int| 0 <= j < ll ==> uv[1 + j] == #[trigger] uw[1 + j]);
                }
            }
            assert(la == lb) by {
                if la < 0x100 && lb < 0x100 {
                    assert(be_min_bytes(la) == seq![la as u8] && be_min_bytes(lb) == seq![lb as u8]);
                    assert((la as u8) as int == la && (lb as u8) as int == lb);
                    assert(be_min_bytes(la)[0] == be_min_bytes(lb)[0]);
                } else if 0x100 <= la && la < 0x10000 && 0x100 <= lb && lb < 0x10000 {
                    assert(be_min_bytes(la)[0] == (la / 256) as u8);
                    assert(be_min_bytes(la)[1] == (la % 256) as u8);
                    assert(be_min_bytes(lb)[0] == (lb / 256) as u8);
                    assert(be_min_bytes(lb)[1] == (lb % 256) as u8);
                    vstd::arithmetic::div_mod::lemma_fundamental_div_mod(la, 256);
                    vstd::arithmetic::div_mod::lemma_fundamental_div_mod(lb, 256);
                } else if 0x10000 <= la && 0x10000 <= lb {
                    vstd::arithmetic::div_mod::lemma_fundamental_div_mod(la, 256);
                    vstd::arithmetic::div_mod::lemma_fundamental_div_mod(lb, 256);
                    vstd::arithmetic::div_mod::lemma_fundamental_div_mod(la / 256, 256);
                    vstd::arithmetic::div_mod::lemma_fundamental_div_mod(lb / 256, 256);
                    vstd::arithmetic::div_mod::lemma_div_denominator(la, 256, 256);
                    vstd::arithmetic::div_mod::lemma_div_denominator(lb, 256, 256);
                }
            }
            assert(uw.len() == 1 + ll + lb && uv.len() == 1 + ll + la);
        }
        assert(false);
    }
}


impl Header {
    /// Re-checks well-formedness of the stored bytes and cached number.
    pub fn is_well_formed(&self) -> (r: bool)
        ensures
            r == self.wf(),
    {
        match try_decode_header(self.rlp.as_slice()) {
            Some((num, rem)) => rem == 0 && num == self.number,
            None => false,
        }
    }
}

impl TransactionSigned {
    /// Re-checks that the stored bytes are exactly one signed transaction.
    pub fn is_well_formed(&self) -> (r: bool)
        ensures
            r == self.wf(),
    {
        match try_decode_transaction(self.rlp.as_slice()) {
            Some(rem) => rem == 0,
            None => false,
        }
    }
}

impl Receipt {
    /// Re-checks that the stored bytes are exactly one receipt.
    pub fn is_well_formed(&self) -> (r: bool)
        ensures
            r == self.wf(),
    {
        match try_decode_receipt(self.rlp.as_slice()) {
            Some(rem) => rem == 0,
            None => false,
        }
    }
}

impl HeaderWithProof {
    /// Decides whether the value is within the schema bounds the encoder
    /// requires.
    pub fn is_valid(&self) -> (r: bool)
        ensures
            r == self.valid(),
    {
        if !self.header.is_well_formed() || self.header.rlp.len() > 2048 {
            return false;
        }
        match &self.proof.0 {
            Option::None => true,
            Option::Some(hs) => {
                if hs.len() != 15 {
                    proof {
                        assert(self.proof.0 is Some);
                        assert(!self.proof.wf());
                    }
                    return false;
                }
                let mut i: usize = 0;
                while i < 15
                    invariant
                        i <= 15,
                        hs@.len() == 15,
                        self.proof.0 matches Some(inner) && inner@ == hs@,
                        self.header.wf(),
                        self.header@.len() <= 2048,
                        forall|j: int| 0 <= j < i ==> (#[trigger] hs@[j]).wf(),
                    decreases 15 - i,
                {
                    if hs[i].bytes.len() != 32 {
                        return false;
                    }
                    i = i + 1;
                }
                true
            },
        }
    }
}

/// Decides whether a receipt list is within the schema bounds the encoder
/// requires.
pub fn receipts_are_valid(rs: &Vec<Receipt>) -> (r: bool)
    ensures
        r == rs.valid(),
{
    let ghost encs = receipt_encs(rs@);
    let n = rs.len();
    if n > 16384 {
        return false;
    }
    let mut acc: u64 = 4 * (n as u64);
    let mut i: usize = 0;
    while i < n
        invariant
            i <= n,
            n <= 16384,
            n == rs@.len(),
            encs == receipt_encs(rs@),
            forall|j: int| 0 <= j < i ==> (#[trigger] rs@[j]).wf() && rs@[j]@.len() <= 0x8000000,
            acc == 4 * n + sum_lens(encs.take(i as int)),
            acc <= 4 * 16384 + i * 0x8000000,
        decreases n - i,
    {
        proof {
            assert(encs[i as int] == rs@[i as int]@);
            lemma_sum_take_succ(encs, i as int);
            assert((i + 1) * 0x8000000 == i * 0x8000000 + 0x8000000) by (nonlinear_arith);
        }
        if !rs[i].is_well_formed() || rs[i].rlp.len() > 0x8000000 {
            return false;
        }
        acc = acc + (rs[i].rlp.len() as u64);
        i = i + 1;
    }
    proof {
        assert(encs.take(n as int) =~= encs);
    }
    acc < 0x1_0000_0000
}

impl BlockBody {
    /// Decides whether the body is within the schema bounds the encoder
    /// requires.
    pub fn is_valid(&self) -> (r: bool)
        ensures
            r == self.valid(),
    {
        let ghost encs = tx_encs(self.transactions@);
        let n = self.transactions.len();
        if n > 16384 {
            return false;
        }
        let mut acc: u64 = 8 + 4 * (n as u64);
        let mut i: usize = 0;
        while i < n
            invariant
                i <= n,
                n <= 16384,
                n == self.transactions@.len(),
                encs == tx_encs(self.transactions@),
                forall|j: int|
                    0 <= j < i ==> (#[trigger] self.transactions@[j]).wf()
                        && self.transactions@[j]@.len() <= 0x1000000,
                acc == 8 + 4 * n + sum_lens(encs.take(i as int)),
                acc <= 8 + 4 * 16384 + i * 0x1000000,
            decreases n - i,
        {
            proof {
                assert(encs[i as int] == self.transactions@[i as int]@);
                lemma_sum_take_succ(encs, i as int);
                assert((i + 1) * 0x1000000 == i * 0x1000000 + 0x1000000) by (nonlinear_arith);
            }
            if !self.transactions[i].is_well_formed() || self.transactions[i].rlp.len()
                > 0x1000000 {
                return false;
            }
            acc = acc + (self.transactions[i].rlp.len() as u64);
            i = i + 1;
        }
        proof {
            assert(encs.take(n as int) =~= encs);
        }
        if acc >= 0x1_0000_0000 {
            return false;
        }
        let ghost views = header_views(self.uncles@);
        proof {
            assert(forall|j: int|
                0 <= j < self.uncles@.len() ==> (#[trigger] views[j]) == self.uncles@[j]@);
            lemma_sum_lens_nonneg(views);
        }
        let un = self.uncles.len();
        let mut payload: usize = 0;
        let mut k: usize = 0;
        while k < un
            invariant
                k <= un,
                un == self.uncles@.len(),
                views == header_views(self.uncles@),
                self.transactions@.len() <= 16384,
                forall|j: int|
                    0 <= j < self.transactions@.len() ==> (#[trigger] self.transactions@[j]).wf()
                        && self.transactions@[j]@.len() <= 0x1000000,
                8 + 4 * self.transactions@.len() + sum_lens(tx_encs(self.transactions@))
                    < 0x1_0000_0000,
                forall|j: int| 0 <= j < k ==> (#[trigger] self.uncles@[j]).wf(),
                payload == sum_lens(views.take(k as int)),
                payload <= 131072,
            decreases un - k,
        {
            proof {
                assert(views[k as int] == self.uncles@[k as int]@);
                lemma_sum_take_succ(views, k as int);
            }
            if !self.uncles[k].is_well_formed() {
                return false;
            }
            let step = self.uncles[k].rlp.len();
            if step > 131072 - payload {
                proof {
                    lemma_sum_take_le(views, k + 1);
                    lemma_concat_len(views);
                    lemma_be_min_bytes_nonempty(sum_lens(views));
                }
                return false;
            }
            payload = payload + step;
            k = k + 1;
        }
        proof {
            assert(views.take(un as int) =~= views);
            lemma_concat_len(views);
            lemma_be_min_bytes(payload as int);
        }
        let prefix_len: usize = if payload < 56 {
            1
        } else if payload < 0x100 {
            2
        } else if payload < 0x10000 {
            3
        } else {
            4
        };
        prefix_len + payload <= 131072
    }
}

/// The list prefix is never empty, and the encoding is at least one byte
/// longer than the payload.
proof fn lemma_be_min_bytes_nonempty(n: int)
    requires
        n >= 0,
    ensures
        rlp_list_prefix(n).len() >= 1,
{
    if n >= 56 {
        assert(rlp_list_prefix(n).len() == 1 + be_min_bytes(n).len());
    }
}

impl EpochAccumulator {
    /// Decides whether the accumulator is within its schema bounds.
    pub fn is_valid(&self) -> (r: bool)
        ensures
            r == self.valid(),
    {
        let n = self.records.len();
        if n > 8192 {
            return false;
        }
        let mut i: usize = 0;
        while i < n
            invariant
                i <= n,
                n == self.records@.len(),
                forall|j: int| 0 <= j < i ==> (#[trigger] self.records@[j]).wf(),
            decreases n - i,
        {
            let rec = &self.records[i];
            if rec.hash.bytes.len() != 32 || rec.total_difficulty.le_bytes.len() != 32 {
                return false;
            }
            i = i + 1;
        }
        true
    }
}

impl HistoryContentItem {
    /// Decides whether the carried variant is within its schema bounds,
    /// so that serialization is possible.
    pub fn is_valid(&self) -> (r: bool)
        ensures
            r == self.valid(),
    {
        match self {
            HistoryContentItem::BlockHeaderWithProof(v) => v.is_valid(),
            HistoryContentItem::BlockHeader(v) => v.is_well_formed(),
            HistoryContentItem::BlockBody(v) => v.is_valid(),
            HistoryContentItem::Receipts(v) => receipts_are_valid(v),
            HistoryContentItem::EpochAccumulator(v) => v.is_valid(),
        }
    }
}

} // verus!
