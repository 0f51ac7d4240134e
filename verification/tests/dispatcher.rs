use alloy_rlp::Encodable;
use trin::content_item::{
    ContentItem, Header, HeaderWithProof, HistoryContentItem, SszOption,
};
use trin::hexutil::{hex_decode, hex_encode};
use trin::ContentItemDecodeError;

fn header_rlp(number: u64) -> Vec<u8> {
    let mut h = alloy_consensus::Header::default();
    h.number = number;
    let mut rlp: Vec<u8> = Vec::new();
    h.encode(&mut rlp);
    rlp
}

#[test]
fn hex_round_trip() {
    let bytes = vec![0u8, 1, 0xab, 0xff];
    let s = hex_encode(&bytes);
    assert_eq!(s, "0x0001abff");
    assert_eq!(hex_decode(&s).unwrap(), bytes);
}

#[test]
fn hex_prefix_and_case() {
    assert_eq!(hex_decode("0x1234").unwrap(), hex_decode("1234").unwrap());
    assert_eq!(hex_decode("0Xab").unwrap(), vec![0xab]);
    assert_eq!(hex_decode("AB").unwrap(), vec![0xab]);
    assert_eq!(hex_decode(""), Ok(Vec::new()));
}

#[test]
fn hex_rejects_malformed() {
    assert_eq!(hex_decode("0x123"), Err(ContentItemDecodeError::InvalidHex));
    assert_eq!(hex_decode("zz"), Err(ContentItemDecodeError::InvalidHex));
    assert_eq!(hex_decode("0x0g"), Err(ContentItemDecodeError::InvalidHex));
    assert_eq!(hex_decode("héllo"), Err(ContentItemDecodeError::InvalidHex));
}

#[test]
fn dispatcher_returns_header_with_proof() {
    let header = Header::from_rlp(header_rlp(77)).unwrap();
    let item = HistoryContentItem::BlockHeaderWithProof(HeaderWithProof {
        header,
        proof: SszOption(None),
    });
    let serialized = item.serialize();
    assert!(serialized.starts_with("0x"));
    let round = HistoryContentItem::deserialize(&serialized).unwrap();
    assert_eq!(round, item);
}

#[test]
fn dispatcher_returns_bare_header() {
    let rlp = header_rlp(88);
    let s = hex_encode(&rlp);
    let item = HistoryContentItem::deserialize(&s).unwrap();
    match &item {
        HistoryContentItem::BlockHeader(h) => assert_eq!(h.number(), 88),
        other => panic!("expected a bare header, got {:?}", other),
    }
    // serializing the item reproduces the input string
    assert_eq!(item.serialize(), s);
}

#[test]
fn dispatcher_rejects_garbage() {
    assert_eq!(
        HistoryContentItem::deserialize("0xffff"),
        Err(ContentItemDecodeError::WrongVariant)
    );
    assert_eq!(
        HistoryContentItem::deserialize("not hex"),
        Err(ContentItemDecodeError::InvalidHex)
    );
}

#[test]
fn dispatcher_empty_input_is_empty_receipts() {
    // the empty byte string is the SSZ encoding of an empty receipt list,
    // the first variant in probe order that accepts it
    let item = HistoryContentItem::deserialize("0x").unwrap();
    match &item {
        HistoryContentItem::Receipts(r) => assert!(r.is_empty()),
        other => panic!("expected receipts, got {:?}", other),
    }
}

#[test]
fn dispatcher_corrupted_header_with_proof() {
    let header = Header::from_rlp(header_rlp(99)).unwrap();
    let item = HistoryContentItem::BlockHeaderWithProof(HeaderWithProof {
        header,
        proof: SszOption(None),
    });
    let mut encoded: Vec<u8> = Vec::new();
    match &item {
        HistoryContentItem::BlockHeaderWithProof(v) => v.encode(&mut encoded),
        _ => unreachable!(),
    }
    // break the first container offset: every variant now refuses
    encoded[0] = 0xff;
    encoded[1] = 0xff;
    let s = hex_encode(&encoded);
    assert_eq!(
        HistoryContentItem::deserialize(&s),
        Err(ContentItemDecodeError::WrongVariant)
    );
}
