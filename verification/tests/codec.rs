use kvs::KvError;
use kvs::codec::Command;
use kvs::codec::decode;
use kvs::codec::encode;

fn put(key: &[u8], value: &[u8]) -> Command {
    Command::Put { key: key.to_vec(), value: value.to_vec() }
}

fn removal(key: &[u8]) -> Command {
    Command::Remove { key: key.to_vec() }
}

#[test]
fn round_trip_put() {
    let c = put(b"alpha", b"beta-gamma");
    let bytes = encode(&c);
    let (back, consumed) = decode(&bytes, 0).unwrap();
    assert_eq!(back, c);
    assert_eq!(consumed, bytes.len());
}

#[test]
fn round_trip_remove() {
    let c = removal(b"alpha");
    let bytes = encode(&c);
    let (back, consumed) = decode(&bytes, 0).unwrap();
    assert_eq!(back, c);
    assert_eq!(consumed, bytes.len());
}

#[test]
fn round_trip_empty_key_and_value() {
    let c = put(b"", b"");
    let bytes = encode(&c);
    assert_eq!(bytes.len(), 17);
    let (back, consumed) = decode(&bytes, 0).unwrap();
    assert_eq!(back, c);
    assert_eq!(consumed, 17);
}

#[test]
fn encode_exact_bytes() {
    let bytes = encode(&put(b"a", b"1"));
    assert_eq!(
        bytes,
        vec![0u8, 1, 0, 0, 0, 0, 0, 0, 0, 97, 1, 0, 0, 0, 0, 0, 0, 0, 49]
    );
    let rm = encode(&removal(b"a"));
    assert_eq!(rm, vec![1u8, 1, 0, 0, 0, 0, 0, 0, 0, 97]);
}

#[test]
fn decode_at_offset() {
    let mut bytes = encode(&put(b"a", b"1"));
    let first = bytes.len();
    bytes.extend(encode(&removal(b"zz")));
    let (c0, n0) = decode(&bytes, 0).unwrap();
    assert_eq!(c0, put(b"a", b"1"));
    assert_eq!(n0, first);
    let (c1, n1) = decode(&bytes, first).unwrap();
    assert_eq!(c1, removal(b"zz"));
    assert_eq!(first + n1, bytes.len());
}

#[test]
fn decode_bad_tag_is_corrupt() {
    let bytes = vec![7u8; 32];
    assert_eq!(decode(&bytes, 0), Err(KvError::CorruptRecord));
}

#[test]
fn decode_truncated_is_corrupt() {
    let mut bytes = encode(&put(b"key", b"value"));
    bytes.pop();
    assert_eq!(decode(&bytes, 0), Err(KvError::CorruptRecord));
    let short = vec![0u8, 1, 0, 0];
    assert_eq!(decode(&short, 0), Err(KvError::CorruptRecord));
}

#[test]
fn decode_past_end_is_corrupt() {
    let bytes = encode(&removal(b"k"));
    let n = bytes.len();
    assert_eq!(decode(&bytes, n), Err(KvError::CorruptRecord));
    assert_eq!(decode(&bytes, n + 5), Err(KvError::CorruptRecord));
}

#[test]
fn decode_huge_length_prefix_is_corrupt() {
    // A put whose key length claims more bytes than the buffer holds.
    let mut bytes = vec![0u8];
    bytes.extend([0xff, 0xff, 0xff, 0xff, 0xff, 0xff, 0xff, 0xff]);
    bytes.extend([0u8; 64]);
    assert_eq!(decode(&bytes, 0), Err(KvError::CorruptRecord));
}
