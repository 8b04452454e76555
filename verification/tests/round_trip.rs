use msgpack_lazer_api::decode::decode;
use msgpack_lazer_api::encode::encode;
use msgpack_lazer_api::value::WireValue;

fn text(s: &str) -> WireValue {
    WireValue::Str(s.to_string())
}

fn read_back(value: &WireValue) -> WireValue {
    decode(&encode(value).unwrap()).unwrap()
}

fn as_number(value: &WireValue) -> i128 {
    match value {
        WireValue::U8(n) => *n as i128,
        WireValue::U16(n) => *n as i128,
        WireValue::U32(n) => *n as i128,
        WireValue::U64(n) => *n as i128,
        WireValue::I8(n) => *n as i128,
        WireValue::I16(n) => *n as i128,
        WireValue::I32(n) => *n as i128,
        WireValue::I64(n) => *n as i128,
        other => panic!("not an integer: {:?}", other),
    }
}

#[test]
fn integer_boundaries_keep_their_number() {
    let numbers: [i64; 16] = [
        0,
        -1,
        127,
        128,
        255,
        256,
        32767,
        65536,
        2147483647,
        2147483648,
        i64::MIN,
        i64::MAX,
        -32,
        -33,
        -2147483648,
        -2147483649,
    ];
    for n in numbers {
        assert_eq!(as_number(&read_back(&WireValue::I64(n))), n as i128);
    }
}

#[test]
fn integer_boundaries_exact_bytes() {
    assert_eq!(encode(&WireValue::I64(0)), Ok(vec![0x00]));
    assert_eq!(encode(&WireValue::I64(127)), Ok(vec![0x7f]));
    assert_eq!(encode(&WireValue::I64(128)), Ok(vec![0xd2, 0, 0, 0, 0x80]));
    assert_eq!(encode(&WireValue::I64(255)), Ok(vec![0xd2, 0, 0, 0, 0xff]));
    assert_eq!(encode(&WireValue::I64(256)), Ok(vec![0xd2, 0, 0, 1, 0]));
    assert_eq!(encode(&WireValue::I64(32767)), Ok(vec![0xd2, 0, 0, 0x7f, 0xff]));
    assert_eq!(encode(&WireValue::I64(65536)), Ok(vec![0xd2, 0, 1, 0, 0]));
    assert_eq!(encode(&WireValue::I64(2147483647)), Ok(vec![0xd2, 0x7f, 0xff, 0xff, 0xff]));
    assert_eq!(
        encode(&WireValue::I64(2147483648)),
        Ok(vec![0xd3, 0, 0, 0, 0, 0x80, 0, 0, 0])
    );
    assert_eq!(encode(&WireValue::I64(i64::MIN)), Ok(vec![0xd3, 0x80, 0, 0, 0, 0, 0, 0, 0]));
    assert_eq!(
        encode(&WireValue::I64(i64::MAX)),
        Ok(vec![0xd3, 0x7f, 0xff, 0xff, 0xff, 0xff, 0xff, 0xff, 0xff])
    );
    assert_eq!(encode(&WireValue::I64(-32)), Ok(vec![0xe0]));
    assert_eq!(encode(&WireValue::I64(-33)), Ok(vec![0xd2, 0xff, 0xff, 0xff, 0xdf]));
    assert_eq!(encode(&WireValue::I64(-2147483648)), Ok(vec![0xd2, 0x80, 0, 0, 0]));
    assert_eq!(
        encode(&WireValue::I64(-2147483649)),
        Ok(vec![0xd3, 0xff, 0xff, 0xff, 0xff, 0x7f, 0xff, 0xff, 0xff])
    );
}

#[test]
fn integers_come_back_in_the_width_of_their_form() {
    assert_eq!(read_back(&WireValue::I64(5)), WireValue::U8(5));
    assert_eq!(read_back(&WireValue::U64(5)), WireValue::U8(5));
    assert_eq!(read_back(&WireValue::I64(-5)), WireValue::I8(-5));
    assert_eq!(read_back(&WireValue::U16(300)), WireValue::I32(300));
    assert_eq!(read_back(&WireValue::I16(-300)), WireValue::I32(-300));
    assert_eq!(read_back(&WireValue::U32(u32::MAX)), WireValue::I64(u32::MAX as i64));
    assert_eq!(read_back(&WireValue::U64(1 << 40)), WireValue::I64(1 << 40));
    assert_eq!(read_back(&WireValue::I32(i32::MIN)), WireValue::I32(i32::MIN));
}

#[test]
fn every_integer_width_is_written_by_its_number() {
    assert_eq!(encode(&WireValue::U8(200)), Ok(vec![0xd2, 0, 0, 0, 200]));
    assert_eq!(encode(&WireValue::U16(200)), Ok(vec![0xd2, 0, 0, 0, 200]));
    assert_eq!(encode(&WireValue::U32(200)), Ok(vec![0xd2, 0, 0, 0, 200]));
    assert_eq!(encode(&WireValue::U64(200)), Ok(vec![0xd2, 0, 0, 0, 200]));
    assert_eq!(encode(&WireValue::I16(200)), Ok(vec![0xd2, 0, 0, 0, 200]));
    assert_eq!(encode(&WireValue::I32(200)), Ok(vec![0xd2, 0, 0, 0, 200]));
    assert_eq!(encode(&WireValue::I8(-100)), Ok(vec![0xd2, 0xff, 0xff, 0xff, 0x9c]));
}

#[test]
fn integers_of_other_encoders_are_read() {
    assert_eq!(decode(&[0xcc, 0xff]), Ok(WireValue::U8(255)));
    assert_eq!(decode(&[0xcd, 0x01, 0x00]), Ok(WireValue::U16(256)));
    assert_eq!(decode(&[0xce, 0x00, 0x01, 0x00, 0x00]), Ok(WireValue::U32(65536)));
    assert_eq!(
        decode(&[0xcf, 0xff, 0xff, 0xff, 0xff, 0xff, 0xff, 0xff, 0xff]),
        Ok(WireValue::U64(u64::MAX))
    );
    assert_eq!(decode(&[0xd0, 0x80]), Ok(WireValue::I8(-128)));
    assert_eq!(decode(&[0xd0, 0x7f]), Ok(WireValue::I8(127)));
    assert_eq!(decode(&[0xd1, 0x80, 0x00]), Ok(WireValue::I16(-32768)));
    assert_eq!(decode(&[0xd1, 0xff, 0xfe]), Ok(WireValue::I16(-2)));
    assert_eq!(decode(&[0xd2, 0xff, 0xff, 0xff, 0xff]), Ok(WireValue::I32(-1)));
    assert_eq!(
        decode(&[0xd3, 0x80, 0, 0, 0, 0, 0, 0, 0]),
        Ok(WireValue::I64(i64::MIN))
    );
    assert_eq!(decode(&[0x00]), Ok(WireValue::U8(0)));
    assert_eq!(decode(&[0x7f]), Ok(WireValue::U8(127)));
    assert_eq!(decode(&[0xe0]), Ok(WireValue::I8(-32)));
    assert_eq!(decode(&[0xff]), Ok(WireValue::I8(-1)));
}

#[test]
fn floats_come_back_bit_for_bit() {
    let singles: [f32; 8] = [
        0.0,
        -0.0,
        1.5,
        f32::MIN_POSITIVE,
        f32::MAX,
        f32::MIN,
        f32::INFINITY,
        f32::NAN,
    ];
    for x in singles {
        let value = WireValue::Float32(x.to_bits());
        assert_eq!(read_back(&value), value);
    }
    let doubles: [f64; 8] = [
        0.0,
        -0.0,
        1.5,
        f64::MIN_POSITIVE,
        f64::MAX,
        f64::MIN,
        f64::NEG_INFINITY,
        f64::NAN,
    ];
    for x in doubles {
        let value = WireValue::Float64(x.to_bits());
        assert_eq!(read_back(&value), value);
    }
}

#[test]
fn float_exact_bytes() {
    assert_eq!(
        encode(&WireValue::Float32(1.5f32.to_bits())),
        Ok(vec![0xca, 0x3f, 0xc0, 0x00, 0x00])
    );
    assert_eq!(
        encode(&WireValue::Float64(1.5f64.to_bits())),
        Ok(vec![0xcb, 0x3f, 0xf8, 0, 0, 0, 0, 0, 0])
    );
    assert_eq!(
        encode(&WireValue::Float32((-0.0f32).to_bits())),
        Ok(vec![0xca, 0x80, 0x00, 0x00, 0x00])
    );
    match decode(&[0xca, 0x3f, 0xc0, 0x00, 0x00]) {
        Ok(WireValue::Float32(bits)) => assert_eq!(f32::from_bits(bits), 1.5),
        other => panic!("{:?}", other),
    }
    match decode(&[0xcb, 0xc0, 0x04, 0, 0, 0, 0, 0, 0]) {
        Ok(WireValue::Float64(bits)) => assert_eq!(f64::from_bits(bits), -2.5),
        other => panic!("{:?}", other),
    }
}

#[test]
fn strings_of_every_header() {
    for len in [0usize, 1, 31, 32, 255, 256, 65535, 65536] {
        let value = WireValue::Str("x".repeat(len));
        let bytes = encode(&value).unwrap();
        let header: Vec<u8> = match len {
            0..=31 => vec![0xa0 + len as u8],
            32..=255 => vec![0xd9, len as u8],
            256..=65535 => vec![0xda, (len >> 8) as u8, len as u8],
            _ => vec![0xdb, 0, (len >> 16) as u8, (len >> 8) as u8, len as u8],
        };
        assert_eq!(&bytes[..header.len()], &header[..]);
        assert_eq!(bytes.len(), header.len() + len);
        assert_eq!(decode(&bytes), Ok(value));
    }
}

#[test]
fn strings_beyond_ascii() {
    for s in ["\u{e9}t\u{e9}", "\u{65e5}\u{672c}\u{8a9e}", "\u{1f3b5} osu!"] {
        assert_eq!(read_back(&text(s)), text(s));
    }
    assert_eq!(encode(&text("\u{e9}")), Ok(vec![0xa2, 0xc3, 0xa9]));
}

#[test]
fn blobs_of_every_header() {
    for len in [0usize, 1, 255, 256, 65535, 65536] {
        let value = WireValue::Binary(vec![0xff; len]);
        let bytes = encode(&value).unwrap();
        let header: Vec<u8> = match len {
            0..=255 => vec![0xc4, len as u8],
            256..=65535 => vec![0xc5, (len >> 8) as u8, len as u8],
            _ => vec![0xc6, 0, (len >> 16) as u8, (len >> 8) as u8, len as u8],
        };
        assert_eq!(&bytes[..header.len()], &header[..]);
        assert_eq!(bytes.len(), header.len() + len);
        assert_eq!(decode(&bytes), Ok(value));
    }
}

#[test]
fn lists_of_every_header() {
    for len in [0usize, 1, 3, 15, 16, 65535, 65536] {
        let value = WireValue::Array((0..len).map(|_| WireValue::Nil).collect());
        let bytes = encode(&value).unwrap();
        let header: Vec<u8> = match len {
            0..=15 => vec![0x90 + len as u8],
            16..=65535 => vec![0xdc, (len >> 8) as u8, len as u8],
            _ => vec![0xdd, 0, (len >> 16) as u8, (len >> 8) as u8, len as u8],
        };
        assert_eq!(&bytes[..header.len()], &header[..]);
        assert_eq!(bytes.len(), header.len() + len);
        assert_eq!(decode(&bytes), Ok(value));
    }
}

#[test]
fn mappings_of_every_header() {
    for len in [0usize, 1, 15, 16, 65535, 65536] {
        let value =
            WireValue::Mapping((0..len).map(|_| (WireValue::Nil, WireValue::Bool(true))).collect());
        let bytes = encode(&value).unwrap();
        let header: Vec<u8> = match len {
            0..=15 => vec![0x80 + len as u8],
            16..=65535 => vec![0xde, (len >> 8) as u8, len as u8],
            _ => vec![0xdf, 0, (len >> 16) as u8, (len >> 8) as u8, len as u8],
        };
        assert_eq!(&bytes[..header.len()], &header[..]);
        assert_eq!(bytes.len(), header.len() + 2 * len);
        assert_eq!(decode(&bytes), Ok(value));
    }
}

#[test]
fn list_exact_bytes() {
    let value = WireValue::Array(vec![WireValue::U8(1), WireValue::U8(2), WireValue::U8(3)]);
    assert_eq!(encode(&value), Ok(vec![0x93, 1, 2, 3]));
    assert_eq!(read_back(&value), value);
}

#[test]
fn mapping_exact_bytes_and_order() {
    let value = WireValue::Mapping(vec![
        (text("b"), WireValue::U8(2)),
        (text("a"), WireValue::U8(1)),
        (text("b"), WireValue::U8(3)),
    ]);
    assert_eq!(encode(&value), Ok(vec![0x83, 0xa1, 0x62, 2, 0xa1, 0x61, 1, 0xa1, 0x62, 3]));
    assert_eq!(read_back(&value), value);
}

#[test]
fn empty_containers() {
    assert_eq!(encode(&WireValue::Array(vec![])), Ok(vec![0x90]));
    assert_eq!(encode(&WireValue::Mapping(vec![])), Ok(vec![0x80]));
    assert_eq!(decode(&[0x90]), Ok(WireValue::Array(vec![])));
    assert_eq!(decode(&[0x80]), Ok(WireValue::Mapping(vec![])));
}

fn nested(levels: usize) -> WireValue {
    if levels == 0 {
        WireValue::Array(vec![])
    } else if levels % 2 == 0 {
        WireValue::Array(vec![
            nested(levels - 1),
            WireValue::U8(levels as u8),
            WireValue::Mapping(vec![]),
        ])
    } else {
        WireValue::Mapping(vec![
            (text("inner"), nested(levels - 1)),
            (WireValue::U8(levels as u8), WireValue::Binary(vec![levels as u8])),
        ])
    }
}

#[test]
fn deep_nesting_comes_back() {
    for levels in [5usize, 6, 7, 12] {
        let value = nested(levels);
        assert_eq!(read_back(&value), value);
    }
}

#[test]
fn mixed_tree_comes_back() {
    let value = WireValue::Mapping(vec![
        (
            text("mods"),
            WireValue::Array(vec![WireValue::ModDescriptor {
                acronym: "DT".to_string(),
                settings: Box::new(WireValue::Mapping(vec![(
                    text("speed_change"),
                    WireValue::Float64(1.5f64.to_bits()),
                )])),
            }]),
        ),
        (text("ended_at"), WireValue::Timestamp { seconds: 1_700_000_000, nanoseconds: 5 }),
        (text("passed"), WireValue::Bool(true)),
        (text("replay"), WireValue::Binary(vec![1, 2, 3])),
        (text("rank"), WireValue::Nil),
        (
            text("hits"),
            WireValue::Array(vec![WireValue::I32(300), WireValue::I32(1000), WireValue::U8(50)]),
        ),
    ]);
    assert_eq!(read_back(&value), value);
}
