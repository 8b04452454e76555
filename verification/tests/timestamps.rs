use msgpack_lazer_api::decode::{
    decode, parse_timestamp_payload, read_ext, read_timestamp, timestamp_from_fields, Cursor,
};
use msgpack_lazer_api::encode::{encode, timestamp_payload, write_timestamp};
use msgpack_lazer_api::value::{DecodeError, WireValue};

fn stamp(seconds: i64, nanoseconds: u32) -> WireValue {
    WireValue::Timestamp { seconds, nanoseconds }
}

#[test]
fn four_byte_form_at_its_bounds() {
    assert_eq!(encode(&stamp(0, 0)), Ok(vec![0xd6, 0xff, 0, 0, 0, 0]));
    assert_eq!(
        encode(&stamp(4294967295, 0)),
        Ok(vec![0xd6, 0xff, 0xff, 0xff, 0xff, 0xff])
    );
    assert_eq!(decode(&encode(&stamp(4294967295, 0)).unwrap()), Ok(stamp(4294967295, 0)));
}

#[test]
fn eight_byte_form_at_its_bounds() {
    assert_eq!(
        encode(&stamp(4294967296, 0)),
        Ok(vec![0xd7, 0xff, 0, 0, 0, 1, 0, 0, 0, 0])
    );
    assert_eq!(decode(&encode(&stamp(4294967296, 0)).unwrap()), Ok(stamp(4294967296, 0)));
    assert_eq!(
        encode(&stamp(17179869183, 0)),
        Ok(vec![0xd7, 0xff, 0, 0, 0, 3, 0xff, 0xff, 0xff, 0xff])
    );
    assert_eq!(decode(&encode(&stamp(17179869183, 0)).unwrap()), Ok(stamp(17179869183, 0)));
}

#[test]
fn nanoseconds_select_the_eight_byte_form() {
    assert_eq!(encode(&stamp(1, 1)), Ok(vec![0xd7, 0xff, 0, 0, 0, 4, 0, 0, 0, 1]));
    assert_eq!(decode(&encode(&stamp(1, 1)).unwrap()), Ok(stamp(1, 1)));
    assert_eq!(
        encode(&stamp(0, 999_999_999)),
        Ok(vec![0xd7, 0xff, 0xee, 0x6b, 0x27, 0xfc, 0, 0, 0, 0])
    );
    assert_eq!(decode(&encode(&stamp(0, 999_999_999)).unwrap()), Ok(stamp(0, 999_999_999)));
    assert_eq!(
        decode(&encode(&stamp(1_700_000_000, 123_456_789)).unwrap()),
        Ok(stamp(1_700_000_000, 123_456_789))
    );
}

#[test]
fn twelve_byte_form_at_its_bounds() {
    assert_eq!(
        encode(&stamp(17179869184, 0)),
        Ok(vec![0xc7, 12, 0xff, 0, 0, 0, 0, 0, 0, 0, 4, 0, 0, 0, 0])
    );
    assert_eq!(decode(&encode(&stamp(17179869184, 0)).unwrap()), Ok(stamp(17179869184, 0)));
    assert_eq!(
        encode(&stamp(-17179869185, 7)),
        Ok(vec![0xc7, 12, 0xff, 0, 0, 0, 7, 0xff, 0xff, 0xff, 0xfb, 0xff, 0xff, 0xff, 0xff])
    );
    assert_eq!(decode(&encode(&stamp(-17179869185, 7)).unwrap()), Ok(stamp(-17179869185, 7)));
}

#[test]
fn negative_seconds_in_the_eight_byte_form_lose_their_sign() {
    // the packed form keeps the low 34 bits of the seconds, read unsigned
    assert_eq!(encode(&stamp(-17179869184, 0)), Ok(vec![0xd7, 0xff, 0, 0, 0, 0, 0, 0, 0, 0]));
    assert_eq!(decode(&encode(&stamp(-17179869184, 0)).unwrap()), Ok(stamp(0, 0)));
    assert_eq!(
        encode(&stamp(-1, 0)),
        Ok(vec![0xd7, 0xff, 0, 0, 0, 3, 0xff, 0xff, 0xff, 0xff])
    );
    assert_eq!(decode(&encode(&stamp(-1, 0)).unwrap()), Ok(stamp(17179869183, 0)));
}

#[test]
fn payload_by_form() {
    assert_eq!(timestamp_payload(0, 0), vec![0, 0, 0, 0]);
    assert_eq!(timestamp_payload(1, 0), vec![0, 0, 0, 1]);
    assert_eq!(timestamp_payload(1, 2), vec![0, 0, 0, 8, 0, 0, 0, 1]);
    assert_eq!(timestamp_payload(-1, 0).len(), 8);
    assert_eq!(timestamp_payload(1 << 34, 0).len(), 12);
    assert_eq!(timestamp_payload(i64::MIN, 0), vec![0, 0, 0, 0, 0x80, 0, 0, 0, 0, 0, 0, 0]);
    // of the nanoseconds the packed form keeps the low 30 bits
    assert_eq!(timestamp_payload(0, (1 << 30) + 1), vec![0, 0, 0, 4, 0, 0, 0, 0]);
}

#[test]
fn write_timestamp_appends_header_and_payload() {
    let mut buf = vec![0x01];
    write_timestamp(&mut buf, 2, 0);
    assert_eq!(buf, vec![0x01, 0xd6, 0xff, 0, 0, 0, 2]);
}

#[test]
fn fields_of_a_payload() {
    assert_eq!(parse_timestamp_payload(&[0, 0, 0, 5]), Some((5, 0)));
    assert_eq!(parse_timestamp_payload(&[0xff, 0xff, 0xff, 0xff]), Some((4294967295, 0)));
    assert_eq!(parse_timestamp_payload(&[0, 0, 0, 4, 0, 0, 0, 1]), Some((1, 1)));
    assert_eq!(
        parse_timestamp_payload(&[0xff, 0xff, 0xff, 0xff, 0xff, 0xff, 0xff, 0xff]),
        Some((17179869183, 1073741823))
    );
    assert_eq!(
        parse_timestamp_payload(&[0, 0, 0, 9, 0xff, 0xff, 0xff, 0xff, 0xff, 0xff, 0xff, 0xfe]),
        Some((-2, 9))
    );
    assert_eq!(parse_timestamp_payload(&[]), None);
    assert_eq!(parse_timestamp_payload(&[0; 5]), None);
    assert_eq!(parse_timestamp_payload(&[0; 16]), None);
}

#[test]
fn timestamp_from_fields_follows_the_verdict() {
    assert_eq!(timestamp_from_fields(3, 4, true), Ok(stamp(3, 4)));
    assert_eq!(timestamp_from_fields(3, 4, false), Err(DecodeError::UnrepresentableInstant));
}

#[test]
fn timestamp_of_other_encoders() {
    // 12-byte form for an instant that would fit 4 bytes
    assert_eq!(
        decode(&[0xc7, 12, 0xff, 0, 0, 0, 0, 0, 0, 0, 0, 0, 0, 0, 1]),
        Ok(stamp(1, 0))
    );
    // ext16 and ext32 headers
    assert_eq!(decode(&[0xc8, 0, 4, 0xff, 0, 0, 0, 1]), Ok(stamp(1, 0)));
    assert_eq!(decode(&[0xc9, 0, 0, 0, 4, 0xff, 0, 0, 0, 1]), Ok(stamp(1, 0)));
    assert_eq!(decode(&[0xc7, 4, 0xff, 0, 0, 0, 1]), Ok(stamp(1, 0)));
}

#[test]
fn instants_that_do_not_exist() {
    // seconds beyond any calendar
    let mut bytes = vec![0xc7, 12, 0xff, 0, 0, 0, 0];
    bytes.extend_from_slice(&i64::MAX.to_be_bytes());
    assert_eq!(decode(&bytes), Err(DecodeError::UnrepresentableInstant));
    let mut bytes = vec![0xc7, 12, 0xff, 0, 0, 0, 0];
    bytes.extend_from_slice(&i64::MIN.to_be_bytes());
    assert_eq!(decode(&bytes), Err(DecodeError::UnrepresentableInstant));
    // two billion nanoseconds
    let mut bytes = vec![0xc7, 12, 0xff];
    bytes.extend_from_slice(&2_000_000_000u32.to_be_bytes());
    bytes.extend_from_slice(&0i64.to_be_bytes());
    assert_eq!(decode(&bytes), Err(DecodeError::UnrepresentableInstant));
    assert_eq!(
        read_timestamp(&[0xff, 0xff, 0xff, 0xff, 0, 0, 0, 0, 0, 0, 0, 0]),
        Err(DecodeError::UnrepresentableInstant)
    );
}

#[test]
fn leap_second_nanoseconds() {
    // more than a billion nanoseconds name an instant only in a 59th second
    let mut bytes = vec![0xc7, 12, 0xff];
    bytes.extend_from_slice(&1_500_000_000u32.to_be_bytes());
    bytes.extend_from_slice(&59i64.to_be_bytes());
    assert_eq!(decode(&bytes), Ok(stamp(59, 1_500_000_000)));
    let mut bytes = vec![0xc7, 12, 0xff];
    bytes.extend_from_slice(&1_500_000_000u32.to_be_bytes());
    bytes.extend_from_slice(&58i64.to_be_bytes());
    assert_eq!(decode(&bytes), Err(DecodeError::UnrepresentableInstant));
}

#[test]
fn read_timestamp_by_length() {
    assert_eq!(read_timestamp(&[0, 0, 0, 1]), Ok(stamp(1, 0)));
    assert_eq!(read_timestamp(&[0, 0, 0, 4, 0, 0, 0, 1]), Ok(stamp(1, 1)));
    assert_eq!(read_timestamp(&[0, 0, 0, 1, 0, 0, 0, 0, 0, 0, 0, 2]), Ok(stamp(2, 1)));
    assert_eq!(read_timestamp(&[0, 0, 0]), Err(DecodeError::InvalidTimestampLength));
    assert_eq!(read_timestamp(&[]), Err(DecodeError::InvalidTimestampLength));
}

#[test]
fn timestamp_lengths_that_are_none() {
    assert_eq!(decode(&[0xd4, 0xff, 0]), Err(DecodeError::InvalidTimestampLength));
    assert_eq!(decode(&[0xd5, 0xff, 0, 0]), Err(DecodeError::InvalidTimestampLength));
    assert_eq!(decode(&[0xc7, 0, 0xff]), Err(DecodeError::InvalidTimestampLength));
    let mut bytes = vec![0xd8, 0xff];
    bytes.extend_from_slice(&[0; 16]);
    assert_eq!(decode(&bytes), Err(DecodeError::InvalidTimestampLength));
}

#[test]
fn other_extension_types() {
    assert_eq!(decode(&[0xd4, 0x01, 0]), Err(DecodeError::UnsupportedExtensionType));
    assert_eq!(decode(&[0xd6, 0x00, 0, 0, 0, 0]), Err(DecodeError::UnsupportedExtensionType));
    assert_eq!(decode(&[0xd6, 0xfe, 0, 0, 0, 0]), Err(DecodeError::UnsupportedExtensionType));
    assert_eq!(decode(&[0xc7, 0, 0x05]), Err(DecodeError::UnsupportedExtensionType));
    // the type is looked at before the length
    assert_eq!(decode(&[0xd4, 0x7f, 0]), Err(DecodeError::UnsupportedExtensionType));
}

#[test]
fn read_ext_moves_past_the_payload() {
    let bytes = [0xff, 0, 0, 0, 9, 0xc0];
    let mut cursor = Cursor::new(&bytes);
    assert_eq!(read_ext(&mut cursor, 4), Ok(stamp(9, 0)));
    assert_eq!(cursor.pos, 5);
}
