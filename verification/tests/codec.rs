use ledger_storage::codec::{
    decode_bytes, decode_time, decode_u64, decode_u64_list, encode_bytes, encode_time, encode_u64,
    encode_u64_list, CodingError, DateTimeUtc,
};

#[test]
fn integer_is_little_endian() {
    assert_eq!(encode_u64(1), vec![1, 0, 0, 0, 0, 0, 0, 0]);
    assert_eq!(encode_u64(0x0102030405060708), vec![8, 7, 6, 5, 4, 3, 2, 1]);
    assert_eq!(decode_u64(&[8, 7, 6, 5, 4, 3, 2, 1]), Ok(0x0102030405060708));
}

#[test]
fn integer_round_trip() {
    for x in [0, 1, 255, 256, 1 << 40, u64::MAX] {
        assert_eq!(decode_u64(&encode_u64(x)), Ok(x));
    }
}

#[test]
fn integer_length_errors() {
    assert_eq!(decode_u64(&[]), Err(CodingError::UnexpectedEnd));
    assert_eq!(decode_u64(&[1, 2, 3]), Err(CodingError::UnexpectedEnd));
    assert_eq!(decode_u64(&[0; 9]), Err(CodingError::TrailingBytes));
}

#[test]
fn bytes_are_length_prefixed() {
    assert_eq!(encode_bytes(&[]), vec![0, 0, 0, 0, 0, 0, 0, 0]);
    assert_eq!(encode_bytes(&[7, 9]), vec![2, 0, 0, 0, 0, 0, 0, 0, 7, 9]);
    assert_eq!(decode_bytes(&[2, 0, 0, 0, 0, 0, 0, 0, 7, 9]), Ok(vec![7, 9]));
}

#[test]
fn bytes_length_errors() {
    assert_eq!(decode_bytes(&[1, 2]), Err(CodingError::UnexpectedEnd));
    assert_eq!(decode_bytes(&[2, 0, 0, 0, 0, 0, 0, 0, 7]), Err(CodingError::UnexpectedEnd));
    assert_eq!(decode_bytes(&[1, 0, 0, 0, 0, 0, 0, 0, 7, 9]), Err(CodingError::TrailingBytes));
    assert_eq!(
        decode_bytes(&[255, 255, 255, 255, 255, 255, 255, 255, 7]),
        Err(CodingError::UnexpectedEnd)
    );
}

#[test]
fn list_is_length_prefixed() {
    assert_eq!(encode_u64_list(&vec![]), vec![0, 0, 0, 0, 0, 0, 0, 0]);
    assert_eq!(
        encode_u64_list(&vec![0, 3]),
        vec![2, 0, 0, 0, 0, 0, 0, 0, 0, 0, 0, 0, 0, 0, 0, 0, 3, 0, 0, 0, 0, 0, 0, 0]
    );
    assert_eq!(decode_u64_list(&encode_u64_list(&vec![0, 3, u64::MAX])), Ok(vec![0, 3, u64::MAX]));
}

#[test]
fn list_length_errors() {
    assert_eq!(decode_u64_list(&[0; 7]), Err(CodingError::UnexpectedEnd));
    assert_eq!(decode_u64_list(&[1, 0, 0, 0, 0, 0, 0, 0]), Err(CodingError::UnexpectedEnd));
    assert_eq!(
        decode_u64_list(&[1, 0, 0, 0, 0, 0, 0, 0, 1, 2, 3]),
        Err(CodingError::UnexpectedEnd)
    );
    assert_eq!(decode_u64_list(&[0, 0, 0, 0, 0, 0, 0, 0, 1]), Err(CodingError::TrailingBytes));
    assert_eq!(
        decode_u64_list(&[1, 0, 0, 0, 0, 0, 0, 0, 1, 2, 3, 4, 5, 6, 7, 8, 9]),
        Err(CodingError::TrailingBytes)
    );
    assert_eq!(
        decode_u64_list(&[255, 255, 255, 255, 255, 255, 255, 255, 1, 2, 3, 4, 5, 6, 7, 8]),
        Err(CodingError::UnexpectedEnd)
    );
}

#[test]
fn time_round_trip() {
    for t in [
        DateTimeUtc { secs: 0, nanos: 0 },
        DateTimeUtc { secs: 1_700_000_000, nanos: 999_999_999 },
        DateTimeUtc { secs: -1, nanos: 5 },
        DateTimeUtc { secs: i64::MIN, nanos: u32::MAX },
    ] {
        assert_eq!(decode_time(&encode_time(t)), Ok(t));
    }
}

#[test]
fn time_layout() {
    assert_eq!(
        encode_time(DateTimeUtc { secs: 2, nanos: 3 }),
        vec![2, 0, 0, 0, 0, 0, 0, 0, 3, 0, 0, 0]
    );
    assert_eq!(
        encode_time(DateTimeUtc { secs: -1, nanos: 0 }),
        vec![255, 255, 255, 255, 255, 255, 255, 255, 0, 0, 0, 0]
    );
}

#[test]
fn time_length_errors() {
    assert_eq!(decode_time(&[0; 11]), Err(CodingError::UnexpectedEnd));
    assert_eq!(decode_time(&[0; 13]), Err(CodingError::TrailingBytes));
}
