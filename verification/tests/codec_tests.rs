use diskmap::codec::Entry;

#[test]
fn encode_exact_bytes() {
    let e = Entry::new("a", "1");
    let bytes = e.to_bytes().unwrap();
    assert_eq!(bytes, vec![1u8, 0, 0, 0, 1, 0, 0, 0, 1, b'a', b'1']);
}

#[test]
fn encode_decode_roundtrip() {
    let e = Entry::new("key", "value");
    let bytes = e.to_bytes().unwrap();
    let d = Entry::from_bytes(&bytes, 0).unwrap();
    assert!(d.live);
    assert_eq!(d.key, "key");
    assert_eq!(d.value, "value");
    assert_eq!(d.offset, 0);
    assert_eq!(d.len, bytes.len());
}

#[test]
fn encode_decode_roundtrip_multibyte() {
    let e = Entry::new("clé", "værdi");
    let bytes = e.to_bytes().unwrap();
    let d = Entry::from_bytes(&bytes, 0).unwrap();
    assert_eq!(d.key, "clé");
    assert_eq!(d.value, "værdi");
}

#[test]
fn encode_decode_roundtrip_empty_value() {
    let e = Entry::new("k", "");
    let bytes = e.to_bytes().unwrap();
    let d = Entry::from_bytes(&bytes, 0).unwrap();
    assert_eq!(d.key, "k");
    assert_eq!(d.value, "");
    assert_eq!(d.len, 10);
}

#[test]
fn decode_at_offset() {
    let mut log = Entry::new("a", "1").to_bytes().unwrap();
    let first_len = log.len();
    log.extend_from_slice(&Entry::new("bb", "22").to_bytes().unwrap());
    let d = Entry::from_bytes(&log, first_len).unwrap();
    assert_eq!(d.key, "bb");
    assert_eq!(d.value, "22");
    assert_eq!(d.offset, first_len);
}

#[test]
fn decode_rejects_short_buffer() {
    assert!(Entry::from_bytes(&[1u8, 0, 0], 0).is_none());
    // declared key length runs past the end
    assert!(Entry::from_bytes(&[1u8, 0, 0, 0, 5, 0, 0, 0, 0, b'a'], 0).is_none());
}

#[test]
fn decode_rejects_invalid_utf8() {
    // a one-byte key holding 0xFF, which is not UTF-8
    let bytes = vec![1u8, 0, 0, 0, 1, 0, 0, 0, 0, 0xFF];
    assert!(Entry::from_bytes(&bytes, 0).is_none());
}

#[test]
fn decode_dead_record() {
    let mut bytes = Entry::new("a", "1").to_bytes().unwrap();
    bytes[0] = 0;
    let d = Entry::from_bytes(&bytes, 0).unwrap();
    assert!(!d.live);
    assert_eq!(d.key, "a");
}

#[test]
fn size_field_roundtrip() {
    let b = Entry::size_to_bytes(0xCAFEBABE);
    assert_eq!(b, [0xCA, 0xFE, 0xBA, 0xBE]);
    assert_eq!(Entry::parse_size(&b), 0xCAFEBABEusize);
    assert_eq!(Entry::parse_size(&[0, 0, 0, 7]), 7);
}
