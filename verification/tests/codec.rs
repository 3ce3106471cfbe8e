use kvs::codec::{decode_at, encode};
use kvs::error::KvError;
use kvs::wal::Commands;

#[test]
fn round_trip_get() {
    let cmd = Commands::Get { key: "key1".to_string() };
    let bytes = encode(&cmd);
    let (back, used) = decode_at(&bytes, 0).expect("decodes");
    assert_eq!(back, cmd);
    assert_eq!(used, bytes.len());
}

#[test]
fn round_trip_put() {
    let cmd = Commands::Put { key: "key1".to_string(), value: "value1".to_string() };
    let bytes = encode(&cmd);
    let (back, used) = decode_at(&bytes, 0).expect("decodes");
    assert_eq!(back, cmd);
    assert_eq!(used, bytes.len());
}

#[test]
fn round_trip_rm() {
    let cmd = Commands::Rm { key: "key1".to_string() };
    let bytes = encode(&cmd);
    let (back, used) = decode_at(&bytes, 0).expect("decodes");
    assert_eq!(back, cmd);
    assert_eq!(used, bytes.len());
}

#[test]
fn round_trip_non_ascii() {
    let cmd = Commands::Put { key: "clé ★".to_string(), value: "värde \u{1F600}".to_string() };
    let bytes = encode(&cmd);
    let (back, used) = decode_at(&bytes, 0).expect("decodes");
    assert_eq!(back, cmd);
    assert_eq!(used, bytes.len());
}

#[test]
fn round_trip_empty_strings() {
    let cmd = Commands::Put { key: String::new(), value: String::new() };
    let bytes = encode(&cmd);
    assert_eq!(bytes.len(), 17);
    let (back, used) = decode_at(&bytes, 0).expect("decodes");
    assert_eq!(back, cmd);
    assert_eq!(used, 17);
}

#[test]
fn encoding_layout_exact() {
    // Tag 0, character count 1 as little-endian u64, then 'A' (0x41) as
    // a little-endian u32 scalar value.
    let cmd = Commands::Get { key: "A".to_string() };
    let bytes = encode(&cmd);
    assert_eq!(bytes, vec![0u8, 1, 0, 0, 0, 0, 0, 0, 0, 0x41, 0, 0, 0]);
}

#[test]
fn decode_rejects_bad_tag() {
    let bytes = vec![9u8, 1, 0, 0, 0, 0, 0, 0, 0, 0x41, 0, 0, 0];
    assert_eq!(decode_at(&bytes, 0), Err(KvError::DecodeError));
}

#[test]
fn decode_rejects_truncated_record() {
    let cmd = Commands::Rm { key: "key1".to_string() };
    let mut bytes = encode(&cmd);
    bytes.pop();
    assert_eq!(decode_at(&bytes, 0), Err(KvError::DecodeError));
}

#[test]
fn decode_rejects_surrogate_scalar() {
    // 0xD800 is a surrogate, not a Unicode scalar value.
    let bytes = vec![0u8, 1, 0, 0, 0, 0, 0, 0, 0, 0x00, 0xD8, 0, 0];
    assert_eq!(decode_at(&bytes, 0), Err(KvError::DecodeError));
}

#[test]
fn decode_at_entry_boundary() {
    let first = Commands::Put { key: "a".to_string(), value: "1".to_string() };
    let second = Commands::Get { key: "a".to_string() };
    let mut bytes = encode(&first);
    let boundary = bytes.len();
    bytes.extend(encode(&second));
    let (back, used) = decode_at(&bytes, boundary).expect("decodes");
    assert_eq!(back, second);
    assert_eq!(used, bytes.len());
}
