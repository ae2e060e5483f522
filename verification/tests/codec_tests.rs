use storage_codec::codec::{
    BytesToHexSerde, FormatError, OptionBytesToHexSerde, Prefix, SyncBlockPrefix, SyncTxPrefix,
    ZeroxPrefix,
};

#[test]
fn prefix_strings() {
    assert_eq!(SyncBlockPrefix::prefix(), "sync-bl:");
    assert_eq!(ZeroxPrefix::prefix(), "0x");
    assert_eq!(SyncTxPrefix::prefix(), "sync-tx:");
}

#[test]
fn encode_sync_block_concrete() {
    let s = BytesToHexSerde::<SyncBlockPrefix>::encode(&[0xab, 0xcd]);
    assert_eq!(s, "sync-bl:abcd");
}

#[test]
fn decode_zerox_concrete() {
    let v = BytesToHexSerde::<ZeroxPrefix>::decode("0x1a2b").unwrap();
    assert_eq!(v, vec![0x1a, 0x2b]);
}

#[test]
fn decode_missing_prefix() {
    let r = BytesToHexSerde::<ZeroxPrefix>::decode("1a2b");
    assert_eq!(r, Err(FormatError::MissingPrefix));
}

#[test]
fn decode_invalid_hex_character() {
    let r = BytesToHexSerde::<ZeroxPrefix>::decode("0xzz");
    assert_eq!(r, Err(FormatError::InvalidHex));
}

#[test]
fn decode_odd_length_hex() {
    let r = BytesToHexSerde::<ZeroxPrefix>::decode("0xabc");
    assert_eq!(r, Err(FormatError::InvalidHex));
}

#[test]
fn decode_uppercase_hex() {
    let v = BytesToHexSerde::<ZeroxPrefix>::decode("0xAB").unwrap();
    assert_eq!(v, vec![0xab]);
}

#[test]
fn encode_empty_bytes_is_prefix_alone() {
    let s = BytesToHexSerde::<SyncTxPrefix>::encode(&[]);
    assert_eq!(s, "sync-tx:");
    let v = BytesToHexSerde::<SyncTxPrefix>::decode("sync-tx:").unwrap();
    assert_eq!(v, Vec::<u8>::new());
}

#[test]
fn round_trip_bytes() {
    let input: Vec<u8> = vec![0x00, 0x01, 0x7f, 0x80, 0xff, 0x10];
    let s = BytesToHexSerde::<SyncBlockPrefix>::encode(&input);
    let back = BytesToHexSerde::<SyncBlockPrefix>::decode(&s).unwrap();
    assert_eq!(back, input);
}

#[test]
fn tag_discrimination_concrete() {
    let s = BytesToHexSerde::<SyncTxPrefix>::encode(&[0xde, 0xad]);
    let r = BytesToHexSerde::<SyncBlockPrefix>::decode(&s);
    assert_eq!(r, Err(FormatError::MissingPrefix));
    let s2 = BytesToHexSerde::<SyncBlockPrefix>::encode(&[0xde, 0xad]);
    let r2 = BytesToHexSerde::<ZeroxPrefix>::decode(&s2);
    assert_eq!(r2, Err(FormatError::MissingPrefix));
}

#[test]
fn optional_absent_round_trip() {
    let encoded = OptionBytesToHexSerde::<SyncTxPrefix>::encode(&None);
    assert_eq!(encoded, None);
    let decoded = OptionBytesToHexSerde::<SyncTxPrefix>::decode(None).unwrap();
    assert_eq!(decoded, None);
}

#[test]
fn optional_present_round_trip() {
    let input = Some(vec![0x01, 0x02, 0x03]);
    let encoded = OptionBytesToHexSerde::<SyncBlockPrefix>::encode(&input);
    assert_eq!(encoded, Some("sync-bl:010203".to_string()));
    let decoded = OptionBytesToHexSerde::<SyncBlockPrefix>::decode(encoded).unwrap();
    assert_eq!(decoded, input);
}

#[test]
fn optional_absent_differs_from_empty_bytes() {
    let absent = OptionBytesToHexSerde::<SyncTxPrefix>::encode(&None);
    let empty = OptionBytesToHexSerde::<SyncTxPrefix>::encode(&Some(vec![]));
    assert_eq!(absent, None);
    assert_eq!(empty, Some("sync-tx:".to_string()));
    let back = OptionBytesToHexSerde::<SyncTxPrefix>::decode(empty).unwrap();
    assert_eq!(back, Some(vec![]));
}

#[test]
fn optional_present_malformed_is_hard_error() {
    let r = OptionBytesToHexSerde::<SyncBlockPrefix>::decode(Some("0x0102".to_string()));
    assert_eq!(r, Err(FormatError::MissingPrefix));
    let r2 = OptionBytesToHexSerde::<SyncBlockPrefix>::decode(Some("sync-bl:xy".to_string()));
    assert_eq!(r2, Err(FormatError::InvalidHex));
}
