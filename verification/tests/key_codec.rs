use structkey::KeyBuilder;
use structkey::KeyCodec;
use structkey::KeyParser;

#[test]
fn key_codec_test_string_round_trip() {
    let s = "hello world".to_string();
    let encoded = s.encode_key(KeyBuilder::new()).done();
    let mut p = KeyParser::new(&encoded);
    let decoded = String::decode_key(&mut p).unwrap();
    assert_eq!(s, decoded);
}

#[test]
fn key_codec_test_string_with_special_chars() {
    let s = "a/b%c".to_string();
    let encoded = s.encode_key(KeyBuilder::new()).done();
    let mut p = KeyParser::new(&encoded);
    let decoded = String::decode_key(&mut p).unwrap();
    assert_eq!(s, decoded);
}

#[test]
fn key_codec_test_u64_round_trip() {
    for v in [0u64, 1, 42, u64::MAX] {
        let encoded = v.encode_key(KeyBuilder::new()).done();
        let mut p = KeyParser::new(&encoded);
        let decoded = u64::decode_key(&mut p).unwrap();
        assert_eq!(v, decoded);
    }
}

#[test]
fn key_codec_test_unit_round_trip() {
    let encoded = ().encode_key(KeyBuilder::new()).done();
    assert_eq!(encoded, "");
    let mut p = KeyParser::new(&encoded);
    <()>::decode_key(&mut p).unwrap();
}

#[test]
fn key_codec_test_segment_counts() {
    assert_eq!(1, "anything".to_string().segment_count());
    assert_eq!(1, 0u64.segment_count());
    assert_eq!(1, u64::MAX.segment_count());
    assert_eq!(1, 0u32.segment_count());
    assert_eq!(0, ().segment_count());
}

#[test]
fn key_codec_u32_rejects_out_of_range() {
    let encoded = 7u32.encode_key(KeyBuilder::new()).done();
    let mut p = KeyParser::new(&encoded);
    assert_eq!(7, u32::decode_key(&mut p).unwrap());
    let mut p = KeyParser::new("4294967296");
    assert!(u32::decode_key(&mut p).is_err());
}
