use alloy_rlp::{Decodable, Encodable};
use trin::content_item::{
    BlockBody, ContentItem, EpochAccumulator, H256, Header, HeaderRecord, HeaderWithProof, Receipt,
    SszOption, TransactionSigned, U256,
};
use trin::ContentItemDecodeError;

fn sample_alloy_header(number: u64) -> alloy_consensus::Header {
    let mut h = alloy_consensus::Header::default();
    h.number = number;
    h.gas_limit = 30_000_000;
    h.timestamp = 1_600_000_000;
    h
}

fn header_rlp(number: u64) -> Vec<u8> {
    let mut rlp: Vec<u8> = Vec::new();
    sample_alloy_header(number).encode(&mut rlp);
    rlp
}

fn sample_tx_bytes() -> Vec<u8> {
    let tx = alloy_consensus::TxLegacy::default();
    let sig = alloy_primitives::Signature::test_signature();
    let signed = alloy_consensus::Signed::new_unchecked(tx, sig, alloy_primitives::B256::ZERO);
    let envelope: alloy_consensus::TxEnvelope = alloy_consensus::TxEnvelope::Legacy(signed);
    let mut rlp: Vec<u8> = Vec::new();
    envelope.encode(&mut rlp);
    rlp
}

fn sample_receipt_bytes() -> Vec<u8> {
    let receipt: alloy_consensus::Receipt = alloy_consensus::Receipt::default();
    let with_bloom = alloy_consensus::ReceiptWithBloom {
        receipt,
        logs_bloom: Default::default(),
    };
    let envelope = alloy_consensus::ReceiptEnvelope::Legacy(with_bloom);
    let mut rlp: Vec<u8> = Vec::new();
    envelope.encode(&mut rlp);
    rlp
}

fn zero_hash(fill: u8) -> H256 {
    H256::from_bytes(vec![fill; 32]).unwrap()
}

#[test]
fn header_from_rlp_reads_number() {
    let rlp = header_rlp(12345);
    let header = Header::from_rlp(rlp.clone()).unwrap();
    assert_eq!(header.number(), 12345);
    assert_eq!(header.rlp_bytes().clone(), rlp);
}

#[test]
fn header_round_trip_and_trailing() {
    let rlp = header_rlp(7);
    let header = Header::decode(&rlp).unwrap();
    let mut out: Vec<u8> = Vec::new();
    header.encode(&mut out);
    assert_eq!(out, rlp);

    let mut extended = rlp.clone();
    extended.push(0);
    assert!(Header::decode(&extended).is_err());
}

#[test]
fn header_with_proof_round_trip_none() {
    let header = Header::from_rlp(header_rlp(100)).unwrap();
    let hwp = HeaderWithProof {
        header,
        proof: SszOption(None),
    };
    let mut encoded: Vec<u8> = Vec::new();
    hwp.encode(&mut encoded);
    let decoded = HeaderWithProof::decode(&encoded).unwrap();
    assert_eq!(decoded, hwp);
    let mut re: Vec<u8> = Vec::new();
    decoded.encode(&mut re);
    assert_eq!(re, encoded);
}

#[test]
fn header_with_proof_round_trip_some() {
    let header = Header::from_rlp(header_rlp(200)).unwrap();
    let hashes: Vec<H256> = (0..15u8).map(zero_hash).collect();
    let hwp = HeaderWithProof {
        header,
        proof: SszOption(Some(hashes)),
    };
    let mut encoded: Vec<u8> = Vec::new();
    hwp.encode(&mut encoded);
    let decoded = HeaderWithProof::decode(&encoded).unwrap();
    assert_eq!(decoded, hwp);
}

#[test]
fn header_with_proof_bad_selector() {
    let header_bytes = header_rlp(300);
    let selector_pos = 8 + header_bytes.len();
    let header = Header::from_rlp(header_bytes).unwrap();
    let hwp = HeaderWithProof {
        header,
        proof: SszOption(Some((0..15u8).map(zero_hash).collect())),
    };
    let mut encoded: Vec<u8> = Vec::new();
    hwp.encode(&mut encoded);
    assert_eq!(encoded[selector_pos], 1);
    encoded[selector_pos] = 2;
    assert_eq!(
        HeaderWithProof::decode(&encoded),
        Err(ContentItemDecodeError::InvalidUnionSelector(2))
    );
}

#[test]
fn header_with_proof_trailing_bytes() {
    let header = Header::from_rlp(header_rlp(400)).unwrap();
    let hwp = HeaderWithProof {
        header,
        proof: SszOption(None),
    };
    let mut encoded: Vec<u8> = Vec::new();
    hwp.encode(&mut encoded);
    encoded.push(0xaa);
    assert!(HeaderWithProof::decode(&encoded).is_err());
}

#[test]
fn receipts_round_trip() {
    let r1 = Receipt::from_rlp(sample_receipt_bytes()).unwrap();
    let r2 = Receipt::from_rlp(sample_receipt_bytes()).unwrap();
    let receipts = vec![r1, r2];
    let mut encoded: Vec<u8> = Vec::new();
    receipts.encode(&mut encoded);
    let decoded = <Vec<Receipt> as ContentItem>::decode(&encoded).unwrap();
    assert_eq!(decoded, receipts);
    let mut re: Vec<u8> = Vec::new();
    decoded.encode(&mut re);
    assert_eq!(re, encoded);
}

#[test]
fn receipts_empty_round_trip() {
    let receipts: Vec<Receipt> = Vec::new();
    let mut encoded: Vec<u8> = Vec::new();
    receipts.encode(&mut encoded);
    assert!(encoded.is_empty());
    let decoded = <Vec<Receipt> as ContentItem>::decode(&encoded).unwrap();
    assert!(decoded.is_empty());
}

#[test]
fn receipts_reject_trailing() {
    let r1 = Receipt::from_rlp(sample_receipt_bytes()).unwrap();
    let receipts = vec![r1];
    let mut encoded: Vec<u8> = Vec::new();
    receipts.encode(&mut encoded);
    encoded.push(1);
    assert!(<Vec<Receipt> as ContentItem>::decode(&encoded).is_err());
}

#[test]
fn receipts_over_claimed_count() {
    // a length prefix claiming 16385 elements: 16385 * 4 = 65540
    let encoded: Vec<u8> = vec![0x04, 0x00, 0x01, 0x00];
    assert_eq!(
        <Vec<Receipt> as ContentItem>::decode(&encoded),
        Err(ContentItemDecodeError::BoundExceeded)
    );
}

#[test]
fn block_body_round_trip() {
    let t1 = TransactionSigned::from_rlp(sample_tx_bytes()).unwrap();
    let u1 = Header::from_rlp(header_rlp(41)).unwrap();
    let u2 = Header::from_rlp(header_rlp(42)).unwrap();
    let body = BlockBody {
        transactions: vec![t1],
        uncles: vec![u1, u2],
    };
    let mut encoded: Vec<u8> = Vec::new();
    body.encode(&mut encoded);
    let decoded = BlockBody::decode(&encoded).unwrap();
    assert_eq!(decoded, body);
    let mut re: Vec<u8> = Vec::new();
    decoded.encode(&mut re);
    assert_eq!(re, encoded);
}

#[test]
fn block_body_uncles_match_reference_rlp() {
    let alloy_uncles = vec![sample_alloy_header(1), sample_alloy_header(2)];
    let uncles: Vec<Header> = alloy_uncles
        .iter()
        .map(|h| {
            let mut rlp: Vec<u8> = Vec::new();
            h.encode(&mut rlp);
            Header::from_rlp(rlp).unwrap()
        })
        .collect();
    let body = BlockBody {
        transactions: Vec::new(),
        uncles,
    };
    let mut encoded: Vec<u8> = Vec::new();
    body.encode(&mut encoded);

    // the second container offset delimits the uncles byte list
    let off2 = u32::from_le_bytes([encoded[4], encoded[5], encoded[6], encoded[7]]) as usize;
    let uncles_blob = &encoded[off2..];
    let reference = alloy_rlp::encode(&alloy_uncles);
    assert_eq!(uncles_blob, &reference[..]);

    // and the blob parses back with the reference decoder too
    let round: Vec<alloy_consensus::Header> = Vec::<alloy_consensus::Header>::decode(
        &mut &uncles_blob[..],
    )
    .unwrap();
    assert_eq!(round, alloy_uncles);
}

#[test]
fn block_body_reject_trailing() {
    let body = BlockBody {
        transactions: Vec::new(),
        uncles: vec![Header::from_rlp(header_rlp(5)).unwrap()],
    };
    let mut encoded: Vec<u8> = Vec::new();
    body.encode(&mut encoded);
    encoded.push(0);
    assert!(BlockBody::decode(&encoded).is_err());
}

#[test]
fn epoch_accumulator_round_trip() {
    let records: Vec<HeaderRecord> = (0..3u8)
        .map(|i| HeaderRecord {
            hash: zero_hash(i),
            total_difficulty: U256::from_le_bytes(vec![i; 32]).unwrap(),
        })
        .collect();
    let acc = EpochAccumulator { records };
    assert_eq!(acc.len(), 3);
    let mut encoded: Vec<u8> = Vec::new();
    acc.encode(&mut encoded);
    assert_eq!(encoded.len(), 3 * 64);
    let decoded = EpochAccumulator::decode(&encoded).unwrap();
    assert_eq!(decoded, acc);
}

#[test]
fn epoch_accumulator_bound_and_alignment() {
    let oversize = vec![0u8; 8193 * 64];
    assert_eq!(
        EpochAccumulator::decode(&oversize),
        Err(ContentItemDecodeError::BoundExceeded)
    );
    let misaligned = vec![0u8; 100];
    assert_eq!(
        EpochAccumulator::decode(&misaligned),
        Err(ContentItemDecodeError::InputTruncated)
    );
}

#[test]
fn epoch_accumulator_whole_record_suffix_extends() {
    // a suffix of exactly one 64-byte record is the one shape of trailing
    // data an accumulator cannot distinguish from another record
    let acc = EpochAccumulator {
        records: vec![HeaderRecord {
            hash: zero_hash(1),
            total_difficulty: U256::from_le_bytes(vec![0; 32]).unwrap(),
        }],
    };
    let mut encoded: Vec<u8> = Vec::new();
    acc.encode(&mut encoded);
    encoded.extend_from_slice(&[0u8; 64]);
    let decoded = EpochAccumulator::decode(&encoded).unwrap();
    assert_eq!(decoded.len(), 2);
    // any other suffix length is rejected
    encoded.push(0);
    assert!(EpochAccumulator::decode(&encoded).is_err());
}

#[test]
fn receipts_misaligned_offset() {
    // a first offset that is not a multiple of four
    let encoded: Vec<u8> = vec![0x03, 0x00, 0x00, 0x00];
    assert_eq!(
        <Vec<Receipt> as ContentItem>::decode(&encoded),
        Err(ContentItemDecodeError::InvalidOffset)
    );
}

#[test]
fn header_with_proof_bad_first_offset() {
    let encoded: Vec<u8> = vec![0, 0, 0, 0, 8, 0, 0, 0, 1, 2];
    assert_eq!(
        HeaderWithProof::decode(&encoded),
        Err(ContentItemDecodeError::InvalidOffset)
    );
}

#[test]
fn header_with_proof_container_layout() {
    let header_bytes = header_rlp(9);
    let header_len = header_bytes.len();
    let hwp = HeaderWithProof {
        header: Header::from_rlp(header_bytes).unwrap(),
        proof: SszOption(None),
    };
    let mut encoded: Vec<u8> = Vec::new();
    hwp.encode(&mut encoded);
    // fixed part: two four-byte little-endian offsets, the first always 8
    assert_eq!(&encoded[0..4], &[8, 0, 0, 0]);
    let off2 = (8 + header_len) as u32;
    assert_eq!(&encoded[4..8], &off2.to_le_bytes());
    // absent proof: a single selector byte closes the container
    assert_eq!(encoded.len(), 8 + header_len + 1);
    assert_eq!(*encoded.last().unwrap(), 0);
}

#[test]
fn union_selector_zero_with_suffix_is_trailing() {
    let header_bytes = header_rlp(10);
    let hwp = HeaderWithProof {
        header: Header::from_rlp(header_bytes).unwrap(),
        proof: SszOption(None),
    };
    let mut encoded: Vec<u8> = Vec::new();
    hwp.encode(&mut encoded);
    encoded.push(0x55);
    assert_eq!(
        HeaderWithProof::decode(&encoded),
        Err(ContentItemDecodeError::TrailingBytes)
    );
}

#[test]
fn inner_rlp_failures_are_reported() {
    assert_eq!(
        Header::from_rlp(vec![0x01]),
        Err(ContentItemDecodeError::InnerRlp)
    );
    assert_eq!(
        TransactionSigned::from_rlp(vec![0xc0]).is_ok(),
        false
    );
    assert!(Receipt::from_rlp(vec![0xff, 0xff]).is_err());
}

#[test]
fn validity_checks_match_bounds() {
    let header = Header::from_rlp(header_rlp(1)).unwrap();
    let good = HeaderWithProof {
        header,
        proof: SszOption(Some((0..15u8).map(zero_hash).collect())),
    };
    assert!(good.is_valid());

    let short_proof = HeaderWithProof {
        header: Header::from_rlp(header_rlp(1)).unwrap(),
        proof: SszOption(Some(vec![zero_hash(0)])),
    };
    assert!(!short_proof.is_valid());

    let acc = EpochAccumulator {
        records: vec![HeaderRecord {
            hash: zero_hash(0),
            total_difficulty: U256::from_le_bytes(vec![0; 32]).unwrap(),
        }],
    };
    assert!(acc.is_valid());

    let oversize = EpochAccumulator {
        records: (0..8193u32)
            .map(|_| HeaderRecord {
                hash: zero_hash(0),
                total_difficulty: U256::from_le_bytes(vec![0; 32]).unwrap(),
            })
            .collect(),
    };
    assert!(!oversize.is_valid());

    let body = BlockBody {
        transactions: vec![TransactionSigned::from_rlp(sample_tx_bytes()).unwrap()],
        uncles: vec![Header::from_rlp(header_rlp(2)).unwrap()],
    };
    assert!(body.is_valid());
    assert!(trin::content_item::receipts_are_valid(&vec![
        Receipt::from_rlp(sample_receipt_bytes()).unwrap()
    ]));
}
