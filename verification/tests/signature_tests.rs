use trin::signature::BlsSignature;
use trin::ContentItemDecodeError;

#[test]
fn bls_signature_ssz_round_trip() {
    let bytes: Vec<u8> = (0..96u8).collect();
    let sig = BlsSignature::from_ssz_bytes(&bytes).unwrap();
    assert_eq!(sig.bytes().clone(), bytes);
    let mut out: Vec<u8> = Vec::new();
    sig.ssz_append(&mut out);
    assert_eq!(out, bytes);
    assert_eq!(sig.ssz_bytes_len(), 96);
    assert_eq!(BlsSignature::ssz_fixed_len(), 96);
    assert!(BlsSignature::is_ssz_fixed_len());
}

#[test]
fn bls_signature_wrong_length() {
    assert_eq!(
        BlsSignature::from_ssz_bytes(&[0u8; 95]),
        Err(ContentItemDecodeError::InputTruncated)
    );
    assert_eq!(
        BlsSignature::from_ssz_bytes(&[0u8; 97]),
        Err(ContentItemDecodeError::TrailingBytes)
    );
    assert!(BlsSignature::new(vec![0u8; 12]).is_none());
}

#[test]
fn bls_signature_hex_round_trip() {
    let bytes: Vec<u8> = (0..96u8).map(|i| i.wrapping_mul(3)).collect();
    let sig = BlsSignature::new(bytes).unwrap();
    let s = sig.serialize();
    assert!(s.starts_with("0x") && s.len() == 2 + 192);
    let round = BlsSignature::deserialize(&s).unwrap();
    assert_eq!(round, sig);
    assert_eq!(
        BlsSignature::deserialize("0x1234"),
        Err(ContentItemDecodeError::InputTruncated)
    );
    assert_eq!(
        BlsSignature::deserialize("xyz"),
        Err(ContentItemDecodeError::InvalidHex)
    );
}
