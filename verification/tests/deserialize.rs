use hdrsample::{
    assert_deserialized_histogram_matches_orig, deserialized_histogram_matches, v2_payload_len,
    varint_read, ByteCursor, DeserializeError,
    Deserializer, Histogram, ReadError, V2Serializer,
};

fn encoded(h: &Histogram<u64>) -> Vec<u8> {
    let mut out = Vec::new();
    V2Serializer::new().serialize(h, &mut out).unwrap();
    out
}

fn sample() -> Histogram<u64> {
    let mut h = Histogram::<u64>::new_with_bounds(1, 2047, 3).unwrap();
    h.record(3).unwrap();
    h.record_n(100, 300).unwrap();
    h
}

fn read_u64(bytes: Vec<u8>) -> (Result<Histogram<u64>, DeserializeError>, u64) {
    let mut cursor = ByteCursor::new(bytes);
    let r = Deserializer::new().deserialize(&mut cursor);
    (r, cursor.position())
}

#[test]
fn deserialize_wrong_cookie() {
    let mut bytes = encoded(&sample());
    bytes[3] ^= 0x01;
    let (r, pos) = read_u64(bytes);
    assert_eq!(DeserializeError::InvalidCookie, r.err().unwrap());
    assert_eq!(0, pos);
}

#[test]
fn deserialize_truncated_header_and_payload() {
    let bytes = encoded(&sample());
    let (r, pos) = read_u64(bytes[..20].to_vec());
    assert_eq!(DeserializeError::UnexpectedEof, r.err().unwrap());
    assert_eq!(0, pos);
    let (r, _) = read_u64(bytes[..bytes.len() - 1].to_vec());
    assert_eq!(DeserializeError::UnexpectedEof, r.err().unwrap());
    let (r, _) = read_u64(bytes[..2].to_vec());
    assert_eq!(DeserializeError::UnexpectedEof, r.err().unwrap());
}

#[test]
fn deserialize_unsupported_offset_and_ratio() {
    let mut bytes = encoded(&sample());
    bytes[11] = 1;
    let (r, _) = read_u64(bytes);
    assert_eq!(DeserializeError::UnsupportedFeature, r.err().unwrap());
    let mut bytes = encoded(&sample());
    // conversion ratio 2.0 in place of 1.0
    bytes[32] = 0x40;
    bytes[33] = 0x00;
    let (r, _) = read_u64(bytes);
    assert_eq!(DeserializeError::UnsupportedFeature, r.err().unwrap());
}

#[test]
fn deserialize_invalid_parameters() {
    let mut bytes = encoded(&sample());
    // lowest discernible value 0
    bytes[23] = 0;
    let (r, _) = read_u64(bytes);
    assert_eq!(DeserializeError::InvalidParameters, r.err().unwrap());
    let mut bytes = encoded(&sample());
    // 256 significant digits
    bytes[14] = 1;
    let (r, _) = read_u64(bytes);
    assert_eq!(DeserializeError::InvalidParameters, r.err().unwrap());
}

#[test]
fn deserialize_count_too_big_for_counter() {
    let bytes = encoded(&sample());
    let mut cursor = ByteCursor::new(bytes.clone());
    let r = Deserializer::new().deserialize::<u8>(&mut cursor);
    assert_eq!(DeserializeError::UnsuitableCounterType, r.err().unwrap());
    let mut cursor = ByteCursor::new(bytes);
    let r = Deserializer::new().deserialize::<u16>(&mut cursor);
    assert!(r.is_ok());
}

#[test]
fn deserialize_counts_past_the_slots() {
    let mut bytes = encoded(&Histogram::<u64>::new_with_bounds(1, 2047, 3).unwrap());
    bytes.truncate(40);
    // payload: skip 2048 zero slots, then a count of 1
    bytes[7] = 3;
    bytes.extend_from_slice(&[0xFF, 0x1F, 0x02]);
    let (r, _) = read_u64(bytes);
    assert_eq!(DeserializeError::EncodedArrayTooLong, r.err().unwrap());
}

#[test]
fn deserialize_index_overflow() {
    let mut bytes = encoded(&Histogram::<u64>::new_with_bounds(1, 2047, 3).unwrap());
    bytes.truncate(40);
    // payload: skip 2^63 zero slots twice
    bytes[7] = 18;
    bytes.extend_from_slice(&[0xFF; 18]);
    let (r, _) = read_u64(bytes);
    assert_eq!(DeserializeError::UsizeTypeTooSmall, r.err().unwrap());
}

#[test]
fn deserialize_two_in_a_row() {
    let a = sample();
    let mut b = Histogram::<u64>::new_with_bounds(1000, 1_000_000, 2).unwrap();
    b.record(123456).unwrap();
    b.record(999_999).unwrap();
    let mut bytes = encoded(&a);
    let first_len = bytes.len() as u64;
    bytes.extend_from_slice(&encoded(&b));
    let total_len = bytes.len() as u64;
    let mut cursor = ByteCursor::new(bytes);
    let mut d = Deserializer::new();
    let a2: Histogram<u64> = d.deserialize(&mut cursor).unwrap();
    assert_eq!(first_len, cursor.position());
    let b2: Histogram<u64> = d.deserialize(&mut cursor).unwrap();
    assert_eq!(total_len, cursor.position());
    assert_eq!(123392, b2.min_non_zero_value());
    assert_eq!(1003519, b2.max_value());
    assert_eq!(2, b2.total_count());
    assert!(deserialized_histogram_matches(&a, &a2));
    assert!(deserialized_histogram_matches(&b, &b2));
    assert_deserialized_histogram_matches_orig(a, a2);
    assert_deserialized_histogram_matches_orig(b, b2);
}

#[test]
fn deserialized_stats_come_from_counts() {
    let mut h = Histogram::<u64>::new_with_bounds(1, u64::MAX, 3).unwrap();
    h.record(10003).unwrap();
    h.record(2049).unwrap();
    let bytes = encoded(&h);
    let (r, _) = read_u64(bytes);
    let h2 = r.unwrap();
    assert_eq!(10007, h2.max_value());
    assert_eq!(2048, h2.min_non_zero_value());
    assert_eq!(2, h2.total_count());
    assert_eq!(h.counts(), h2.counts());
    assert!(!deserialized_histogram_matches(&h, &Histogram::new_with_bounds(1, u64::MAX, 3).unwrap()));
}

#[test]
fn varint_read_past_end() {
    let mut cursor = ByteCursor::new(vec![0x80, 0x81]);
    assert_eq!(ReadError::UnexpectedEof, varint_read(&mut cursor).unwrap_err());
    assert_eq!(2, cursor.position());
    let mut cursor = ByteCursor::new(vec![0x81, 0x01, 0x05]);
    assert_eq!(129, varint_read(&mut cursor).unwrap());
    assert_eq!(2, cursor.position());
    assert_eq!(5, varint_read(&mut cursor).unwrap());
    assert_eq!(ReadError::UnexpectedEof, cursor.read_u8().unwrap_err());
}

#[test]
fn payload_len_from_header() {
    let bytes = encoded(&sample());
    assert_eq!(Some(6), v2_payload_len(&bytes));
    assert_eq!(Some(6), v2_payload_len(&bytes[..8]));
    assert_eq!(None, v2_payload_len(&bytes[..7]));
    let mut bad = bytes.clone();
    bad[0] = 0;
    assert_eq!(None, v2_payload_len(&bad));
}
