use mini_bitcask::codec::Record;
use mini_bitcask::codec::decode_record;
use mini_bitcask::codec::encode_record;
use mini_bitcask::errors::Error;

#[test]
fn roundtrip_value_record() {
    let rec = Record { key: b"hello".to_vec(), value: Some(b"world".to_vec()) };
    let bytes = rec.encode();
    let (back, next) = decode_record(&bytes, 0).unwrap();
    assert_eq!(back.key, b"hello".to_vec());
    assert_eq!(back.value, Some(b"world".to_vec()));
    assert_eq!(next, bytes.len());
}

#[test]
fn roundtrip_tombstone_record() {
    let rec = Record { key: b"gone".to_vec(), value: None };
    let bytes = rec.encode();
    let (back, next) = decode_record(&bytes, 0).unwrap();
    assert_eq!(back.key, b"gone".to_vec());
    assert_eq!(back.value, None);
    assert_eq!(next, bytes.len());
}

#[test]
fn roundtrip_empty_key_and_value() {
    let rec = Record { key: Vec::new(), value: Some(Vec::new()) };
    let bytes = rec.encode();
    assert_eq!(bytes.len(), 8);
    let (back, next) = decode_record(&bytes, 0).unwrap();
    assert_eq!(back.key, Vec::<u8>::new());
    assert_eq!(back.value, Some(Vec::<u8>::new()));
    assert_eq!(next, 8);
}

#[test]
fn value_record_exact_bytes() {
    // key_length and value_length are big-endian u32, then the payloads.
    let bytes = encode_record(b"a", Some(b"v"));
    assert_eq!(bytes, vec![0, 0, 0, 1, 0, 0, 0, 1, 97, 118]);
}

#[test]
fn tombstone_exact_bytes() {
    // The tombstone sentinel is the two's-complement encoding of -1_i32.
    let bytes = encode_record(b"a", None);
    assert_eq!(bytes, vec![0, 0, 0, 1, 255, 255, 255, 255, 97]);
}

#[test]
fn decode_truncated_header_is_corrupt() {
    let bytes = vec![0, 0, 0, 1, 0, 0, 0];
    assert!(matches!(decode_record(&bytes, 0), Err(Error::CorruptRecord)));
}

#[test]
fn decode_truncated_payload_is_corrupt() {
    let mut bytes = encode_record(b"key", Some(b"value"));
    bytes.truncate(bytes.len() - 2);
    assert!(matches!(decode_record(&bytes, 0), Err(Error::CorruptRecord)));
}

#[test]
fn decode_any_negative_length_is_tombstone() {
    // Not only -1: every value-length with the top bit set reads back as a
    // delete marker.
    let bytes = vec![0, 0, 0, 1, 128, 0, 0, 0, 97];
    let (back, next) = decode_record(&bytes, 0).unwrap();
    assert_eq!(back.key, b"a".to_vec());
    assert_eq!(back.value, None);
    assert_eq!(next, 9);
}
