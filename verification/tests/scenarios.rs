use msgpack_lazer_api::decode::{decode, looks_like_mod_descriptor, read_object, Cursor};
use msgpack_lazer_api::encode::{encode, write_object};
use msgpack_lazer_api::value::{DecodeError, WireValue};

fn text(s: &str) -> WireValue {
    WireValue::Str(s.to_string())
}

#[test]
fn forty_two_is_one_byte() {
    assert_eq!(encode(&WireValue::I64(42)), Ok(vec![0x2a]));
    assert_eq!(encode(&WireValue::U8(42)), Ok(vec![0x2a]));
    assert_eq!(encode(&WireValue::I32(42)), Ok(vec![0x2a]));
}

#[test]
fn minus_one_is_one_byte() {
    assert_eq!(encode(&WireValue::I64(-1)), Ok(vec![0xff]));
    assert_eq!(encode(&WireValue::I8(-1)), Ok(vec![0xff]));
}

#[test]
fn short_string_alone_is_a_string() {
    let bytes = encode(&text("ab")).unwrap();
    assert_eq!(bytes, vec![0xa2, 0x61, 0x62]);
    assert_eq!(decode(&bytes), Ok(text("ab")));
}

#[test]
fn short_string_alone_is_a_string_in_pair_mode_too() {
    let bytes = [0xa2, 0x61, 0x62];
    let mut cursor = Cursor::new(&bytes);
    assert_eq!(read_object(&mut cursor, true, 4), Ok(text("ab")));
    assert_eq!(cursor.pos, 3);
}

#[test]
fn epoch_is_the_four_byte_timestamp() {
    let bytes = encode(&WireValue::Timestamp { seconds: 0, nanoseconds: 0 }).unwrap();
    assert_eq!(bytes, vec![0xd6, 0xff, 0, 0, 0, 0]);
    assert_eq!(decode(&bytes), Ok(WireValue::Timestamp { seconds: 0, nanoseconds: 0 }));
}

#[test]
fn nil_and_booleans() {
    assert_eq!(encode(&WireValue::Nil), Ok(vec![0xc0]));
    assert_eq!(encode(&WireValue::Bool(true)), Ok(vec![0xc3]));
    assert_eq!(encode(&WireValue::Bool(false)), Ok(vec![0xc2]));
    assert_eq!(decode(&[0xc0]), Ok(WireValue::Nil));
    assert_eq!(decode(&[0xc3]), Ok(WireValue::Bool(true)));
    assert_eq!(decode(&[0xc2]), Ok(WireValue::Bool(false)));
}

#[test]
fn mod_descriptor_bytes() {
    let value = WireValue::ModDescriptor {
        acronym: "HD".to_string(),
        settings: Box::new(WireValue::Mapping(vec![(
            text("speed"),
            WireValue::Float32(1.5f32.to_bits()),
        )])),
    };
    let bytes = encode(&value).unwrap();
    assert_eq!(
        bytes,
        vec![
            0x92, 0xa2, 0x48, 0x44, 0x91, 0xa5, 0x73, 0x70, 0x65, 0x65, 0x64, 0xca, 0x3f, 0xc0,
            0x00, 0x00
        ]
    );
    assert_eq!(decode(&bytes), Ok(value));
}

#[test]
fn mod_descriptor_with_two_settings() {
    let value = WireValue::ModDescriptor {
        acronym: "DT".to_string(),
        settings: Box::new(WireValue::Mapping(vec![
            (text("speed_change"), WireValue::Float64(1.25f64.to_bits())),
            (text("adjust_pitch"), WireValue::Bool(true)),
        ])),
    };
    let bytes = encode(&value).unwrap();
    assert_eq!(&bytes[..5], &[0x92, 0xa2, 0x44, 0x54, 0x92]);
    assert_eq!(decode(&bytes), Ok(value));
}

#[test]
fn mod_descriptor_without_settings() {
    let value = WireValue::ModDescriptor {
        acronym: "HR".to_string(),
        settings: Box::new(WireValue::Mapping(vec![])),
    };
    let bytes = encode(&value).unwrap();
    assert_eq!(bytes, vec![0x92, 0xa2, 0x48, 0x52, 0x90]);
    assert_eq!(decode(&bytes), Ok(value));
}

#[test]
fn mod_descriptors_in_a_list() {
    let value = WireValue::Array(vec![
        WireValue::ModDescriptor {
            acronym: "HD".to_string(),
            settings: Box::new(WireValue::Mapping(vec![])),
        },
        WireValue::ModDescriptor {
            acronym: "DT".to_string(),
            settings: Box::new(WireValue::Mapping(vec![(
                text("speed_change"),
                WireValue::Float32(1.5f32.to_bits()),
            )])),
        },
        WireValue::ModDescriptor {
            acronym: "CL".to_string(),
            settings: Box::new(WireValue::Mapping(vec![])),
        },
    ]);
    let bytes = encode(&value).unwrap();
    assert_eq!(decode(&bytes), Ok(value));
}

#[test]
fn two_character_string_pair_is_read_as_a_mod_descriptor() {
    let plain = WireValue::Array(vec![text("ab"), WireValue::I32(5)]);
    let bytes = encode(&plain).unwrap();
    assert_eq!(bytes, vec![0x92, 0xa2, 0x61, 0x62, 0x05]);
    assert_eq!(
        decode(&bytes),
        Ok(WireValue::ModDescriptor {
            acronym: "ab".to_string(),
            settings: Box::new(WireValue::U8(5)),
        })
    );
}

#[test]
fn two_character_string_before_a_list_reads_the_list_in_pairs() {
    let plain = WireValue::Array(vec![
        text("ab"),
        WireValue::Array(vec![WireValue::I32(1), WireValue::I32(2)]),
    ]);
    let bytes = encode(&plain).unwrap();
    assert_eq!(decode(&bytes), Err(DecodeError::TruncatedInput));
    let mut longer = bytes;
    longer.extend_from_slice(&[0x03, 0x04]);
    assert_eq!(
        decode(&longer),
        Ok(WireValue::ModDescriptor {
            acronym: "ab".to_string(),
            settings: Box::new(WireValue::Mapping(vec![
                (WireValue::U8(1), WireValue::U8(2)),
                (WireValue::U8(3), WireValue::U8(4)),
            ])),
        })
    );
}

#[test]
fn string_pair_of_other_lengths_stays_a_list() {
    for first in ["a", "abc", ""] {
        let plain = WireValue::Array(vec![text(first), WireValue::Bool(true)]);
        let bytes = encode(&plain).unwrap();
        assert_eq!(decode(&bytes), Ok(plain));
    }
}

#[test]
fn two_bytes_count_not_two_characters() {
    let one_char = WireValue::Array(vec![text("\u{e9}"), WireValue::Nil]);
    let bytes = encode(&one_char).unwrap();
    assert_eq!(
        decode(&bytes),
        Ok(WireValue::ModDescriptor {
            acronym: "\u{e9}".to_string(),
            settings: Box::new(WireValue::Nil),
        })
    );
    let two_chars = WireValue::Array(vec![text("\u{e9}\u{e9}"), WireValue::Nil]);
    let bytes = encode(&two_chars).unwrap();
    assert_eq!(decode(&bytes), Ok(two_chars));
}

#[test]
fn three_element_list_starting_with_an_acronym_stays_a_list() {
    let plain = WireValue::Array(vec![text("HD"), WireValue::Nil, WireValue::Nil]);
    let bytes = encode(&plain).unwrap();
    assert_eq!(decode(&bytes), Ok(plain));
}

#[test]
fn the_sign_of_a_mod_descriptor() {
    assert!(looks_like_mod_descriptor(&text("HD")));
    assert!(looks_like_mod_descriptor(&text("\u{e9}")));
    assert!(!looks_like_mod_descriptor(&text("H")));
    assert!(!looks_like_mod_descriptor(&text("HDT")));
    assert!(!looks_like_mod_descriptor(&text("")));
    assert!(!looks_like_mod_descriptor(&WireValue::Binary(vec![0x48, 0x44])));
    assert!(!looks_like_mod_descriptor(&WireValue::U8(2)));
}

#[test]
fn pair_mode_at_the_top_reads_a_list_as_a_mapping() {
    let bytes = [0x92, 0xa1, 0x61, 0x01, 0xa1, 0x62, 0x02];
    let mut cursor = Cursor::new(&bytes);
    assert_eq!(
        read_object(&mut cursor, true, 4),
        Ok(WireValue::Mapping(vec![
            (text("a"), WireValue::U8(1)),
            (text("b"), WireValue::U8(2)),
        ]))
    );
    assert_eq!(cursor.pos, bytes.len());
}

#[test]
fn pair_mode_does_not_reach_into_the_entries() {
    // a pair-mode list of one entry: key "k", value a plain list of two
    let bytes = [0x91, 0xa1, 0x6b, 0x92, 0x01, 0x02];
    let mut cursor = Cursor::new(&bytes);
    assert_eq!(
        read_object(&mut cursor, true, 4),
        Ok(WireValue::Mapping(vec![(
            text("k"),
            WireValue::Array(vec![WireValue::U8(1), WireValue::U8(2)]),
        )]))
    );
}

#[test]
fn trailing_bytes_are_ignored() {
    assert_eq!(decode(&[0x2a, 0xc1, 0xff, 0x00]), Ok(WireValue::U8(42)));
    let mut cursor = Cursor::new(&[0x2a, 0xc1]);
    assert_eq!(read_object(&mut cursor, false, 0), Ok(WireValue::U8(42)));
    assert_eq!(cursor.pos, 1);
}

#[test]
fn write_object_appends() {
    let mut buf = vec![0xaa, 0xbb];
    assert_eq!(write_object(&mut buf, &WireValue::Bool(true)), Ok(()));
    assert_eq!(write_object(&mut buf, &text("a")), Ok(()));
    assert_eq!(buf, vec![0xaa, 0xbb, 0xc3, 0xa1, 0x61]);
}
