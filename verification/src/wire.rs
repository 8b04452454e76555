//! The wire format as mathematics: which bytes a value is written as, and
//! which value a run of bytes is read as.

use crate::endian::{
    be16, be32, be64, from_be16, from_be32, from_be64, sign16, sign32, sign64, sign8, wrap32,
    wrap64, wrap8,
};
use crate::foreign::utc_instant_exists;
use crate::value::{DecodeError, Value};
use vstd::prelude::*;
use vstd::utf8::{decode_utf8, encode_utf8, valid_utf8};

verus! {

/// The extension type tag of a timestamp.
pub const TIMESTAMP_TAG: i8 = -1;

/// Seconds below this bound fit the 34-bit field of the packed timestamp.
pub const PACKED_SECONDS: u64 = 0x4_0000_0000;

/// Nanoseconds below this bound fit the 30-bit field of the packed timestamp.
pub const PACKED_NANOS: u64 = 0x4000_0000;

// ---------------------------------------------------------------------------
// Writing
// ---------------------------------------------------------------------------
/// Marker and length prefix of a string of `len` bytes.
pub open spec fn str_header(len: u32) -> Seq<u8> {
    if len < 32 {
        seq![(0xa0 + len) as u8]
    } else if len < 0x100 {
        seq![0xd9u8, len as u8]
    } else if len < 0x1_0000 {
        seq![0xdau8] + be16(len as u16)
    } else {
        seq![0xdbu8] + be32(len)
    }
}

/// Marker and length prefix of a binary blob of `len` bytes.
pub open spec fn bin_header(len: u32) -> Seq<u8> {
    if len < 0x100 {
        seq![0xc4u8, len as u8]
    } else if len < 0x1_0000 {
        seq![0xc5u8] + be16(len as u16)
    } else {
        seq![0xc6u8] + be32(len)
    }
}

/// Marker and length prefix of an array that announces `len` elements.
pub open spec fn array_header(len: u32) -> Seq<u8> {
    if len < 16 {
        seq![(0x90 + len) as u8]
    } else if len < 0x1_0000 {
        seq![0xdcu8] + be16(len as u16)
    } else {
        seq![0xddu8] + be32(len)
    }
}

/// Marker and length prefix of a map of `len` entries.
pub open spec fn map_header(len: u32) -> Seq<u8> {
    if len < 16 {
        seq![(0x80 + len) as u8]
    } else if len < 0x1_0000 {
        seq![0xdeu8] + be16(len as u16)
    } else {
        seq![0xdfu8] + be32(len)
    }
}

/// Marker, length prefix and type tag of an extension with `len` payload bytes.
pub open spec fn ext_header(len: u32, tag: i8) -> Seq<u8> {
    let lead = if len == 1 {
        seq![0xd4u8]
    } else if len == 2 {
        seq![0xd5u8]
    } else if len == 4 {
        seq![0xd6u8]
    } else if len == 8 {
        seq![0xd7u8]
    } else if len == 16 {
        seq![0xd8u8]
    } else if len < 0x100 {
        seq![0xc7u8, len as u8]
    } else if len < 0x1_0000 {
        seq![0xc8u8] + be16(len as u16)
    } else {
        seq![0xc9u8] + be32(len)
    };
    lead + seq![wrap8(tag)]
}

/// The integer that an integer value holds, whatever its width.
pub open spec fn integer_of(v: Value) -> Option<int> {
    match v {
        Value::U8(n) => Some(n as int),
        Value::U16(n) => Some(n as int),
        Value::U32(n) => Some(n as int),
        Value::U64(n) => Some(n as int),
        Value::I8(n) => Some(n as int),
        Value::I16(n) => Some(n as int),
        Value::I32(n) => Some(n as int),
        Value::I64(n) => Some(n as int),
        _ => None,
    }
}

/// The bytes of an integer between `i64::MIN` and `i64::MAX`: one byte where
/// the marker itself can hold it, else the signed 32-bit form, else the
/// signed 64-bit form.
pub open spec fn int_encoding(n: int) -> Seq<u8> {
    if 0 <= n < 0x80 {
        seq![n as u8]
    } else if -32 <= n < 0 {
        seq![wrap8(n as i8)]
    } else if i32::MIN <= n <= i32::MAX {
        seq![0xd2u8] + be32(wrap32(n as i32))
    } else {
        seq![0xd3u8] + be64(wrap64(n as i64))
    }
}

/// The bytes of a string: length prefix, then its UTF-8 bytes.
pub open spec fn str_encoding(text: Seq<char>) -> Seq<u8> {
    str_header(encode_utf8(text).len() as u32) + encode_utf8(text)
}

/// The bytes of a binary blob: length prefix, then the blob.
pub open spec fn bin_encoding(data: Seq<u8>) -> Seq<u8> {
    bin_header(data.len() as u32) + data
}

/// The 64-bit word of the packed timestamp: the low 30 bits of the
/// nanoseconds above the low 34 bits of the seconds.
pub open spec fn packed_timestamp(seconds: i64, nanoseconds: u32) -> u64 {
    (((nanoseconds as int) % (PACKED_NANOS as int)) * PACKED_SECONDS + (seconds as int) % (
    PACKED_SECONDS as int)) as u64
}

/// The payload of a timestamp, in the shortest of the three forms that the
/// seconds and nanoseconds select.
pub open spec fn timestamp_payload(seconds: i64, nanoseconds: u32) -> Seq<u8> {
    if nanoseconds == 0 && 0 <= seconds <= u32::MAX {
        be32(seconds as u32)
    } else if -PACKED_SECONDS <= seconds < PACKED_SECONDS {
        be64(packed_timestamp(seconds, nanoseconds))
    } else {
        be32(nanoseconds) + be64(wrap64(seconds))
    }
}

/// The bytes of a timestamp: extension header, then the payload.
pub open spec fn timestamp_encoding(seconds: i64, nanoseconds: u32) -> Seq<u8> {
    let payload = timestamp_payload(seconds, nanoseconds);
    ext_header(payload.len() as u32, TIMESTAMP_TAG) + payload
}

/// Whether a value has an encoding: integers reach `i64::MAX` at most, every
/// length fits 32 bits, and the settings of a mod descriptor are a mapping.
pub open spec fn encodable(v: Value) -> bool
    decreases v,
{
    match v {
        Value::U64(n) => n <= i64::MAX,
        Value::Binary(data) => data.len() <= u32::MAX,
        Value::Str(text) => encode_utf8(text).len() <= u32::MAX,
        Value::Array(items) => {
            &&& items.len() <= u32::MAX
            &&& forall|i: int| 0 <= i < items.len() ==> encodable(#[trigger] items[i])
        },
        Value::Mapping(entries) => {
            &&& entries.len() <= u32::MAX
            &&& forall|i: int|
                0 <= i < entries.len() ==> encodable((#[trigger] entries[i]).0) && encodable(
                    entries[i].1,
                )
        },
        Value::ModDescriptor { acronym, settings } => {
            &&& encode_utf8(acronym).len() <= u32::MAX
            &&& *settings is Mapping
            &&& encodable(*settings)
        },
        _ => true,
    }
}

/// The bytes that an encodable value is written as.
///
/// A mod descriptor is an array of two: its acronym, then an array header
/// that announces the number of settings and is followed by twice as many
/// elements, key and value in turn.
pub open spec fn encoding(v: Value) -> Seq<u8>
    decreases v, 0nat,
{
    match v {
        Value::Nil => seq![0xc0u8],
        Value::Bool(b) => if b {
            seq![0xc3u8]
        } else {
            seq![0xc2u8]
        },
        Value::Float32(bits) => seq![0xcau8] + be32(bits),
        Value::Float64(bits) => seq![0xcbu8] + be64(bits),
        Value::Binary(data) => bin_encoding(data),
        Value::Str(text) => str_encoding(text),
        Value::Array(items) => array_header(items.len() as u32) + items_encoding(
            items,
            items.len(),
        ),
        Value::Mapping(entries) => map_header(entries.len() as u32) + entries_encoding(
            entries,
            entries.len(),
        ),
        Value::Timestamp { seconds, nanoseconds } => timestamp_encoding(seconds, nanoseconds),
        Value::ModDescriptor { acronym, settings } => match *settings {
            Value::Mapping(entries) => array_header(2) + str_encoding(acronym) + array_header(
                entries.len() as u32,
            ) + entries_encoding(entries, entries.len()),
            _ => Seq::empty(),
        },
        _ => int_encoding(integer_of(v).unwrap()),
    }
}

/// The encodings of the first `n` of `items`, one after the other.
pub open spec fn items_encoding(items: Seq<Value>, n: nat) -> Seq<u8>
    decreases items, n,
{
    if n == 0 || n > items.len() {
        Seq::empty()
    } else {
        items_encoding(items, (n - 1) as nat) + encoding(items[n - 1])
    }
}

/// The encodings of the first `n` of `entries`, key before value.
pub open spec fn entries_encoding(entries: Seq<(Value, Value)>, n: nat) -> Seq<u8>
    decreases entries, n,
{
    if n == 0 || n > entries.len() {
        Seq::empty()
    } else {
        entries_encoding(entries, (n - 1) as nat) + encoding(entries[n - 1].0) + encoding(
            entries[n - 1].1,
        )
    }
}

// ---------------------------------------------------------------------------
// Reading
// ---------------------------------------------------------------------------
/// What reading at a position gives: the thing read and the position after
/// it, or the reason why nothing could be read.
pub type Parsed<T> = Result<(T, int), DecodeError>;

/// Markers of strings.
pub open spec fn is_str_marker(m: u8) -> bool {
    0xa0 <= m <= 0xbf || 0xd9 <= m <= 0xdb
}

/// Markers of binary blobs.
pub open spec fn is_bin_marker(m: u8) -> bool {
    0xc4 <= m <= 0xc6
}

/// Markers of extensions.
pub open spec fn is_ext_marker(m: u8) -> bool {
    0xc7 <= m <= 0xc9 || 0xd4 <= m <= 0xd8
}

/// Markers of arrays.
pub open spec fn is_array_marker(m: u8) -> bool {
    0x90 <= m <= 0x9f || m == 0xdc || m == 0xdd
}

/// Markers of maps.
pub open spec fn is_map_marker(m: u8) -> bool {
    0x80 <= m <= 0x8f || m == 0xde || m == 0xdf
}

/// Markers of numbers with a payload of fixed width.
pub open spec fn is_number_marker(m: u8) -> bool {
    0xca <= m <= 0xd3
}

/// How many bytes after the marker hold the length: none where the marker
/// itself tells it.
pub open spec fn length_width(m: u8) -> int {
    if m == 0xc4 || m == 0xc7 || m == 0xd9 {
        1
    } else if m == 0xc5 || m == 0xc8 || m == 0xda || m == 0xdc || m == 0xde {
        2
    } else if m == 0xc6 || m == 0xc9 || m == 0xdb || m == 0xdd || m == 0xdf {
        4
    } else {
        0
    }
}

/// The length that a marker without a length field tells by itself.
pub open spec fn marker_length(m: u8) -> nat {
    if 0x80 <= m <= 0x8f {
        (m - 0x80) as nat
    } else if 0x90 <= m <= 0x9f {
        (m - 0x90) as nat
    } else if 0xa0 <= m <= 0xbf {
        (m - 0xa0) as nat
    } else if m == 0xd4 {
        1
    } else if m == 0xd5 {
        2
    } else if m == 0xd6 {
        4
    } else if m == 0xd7 {
        8
    } else if m == 0xd8 {
        16
    } else {
        0
    }
}

/// The length announced by the marker at `pos`, and where the body starts.
pub open spec fn length_field(bytes: Seq<u8>, pos: int, m: u8) -> Parsed<nat> {
    let w = length_width(m);
    let field = bytes.subrange(pos + 1, pos + 1 + w);
    if w == 0 {
        Ok((marker_length(m), pos + 1))
    } else if pos + 1 + w > bytes.len() {
        Err(DecodeError::TruncatedInput)
    } else if w == 1 {
        Ok((field[0] as nat, pos + 2))
    } else if w == 2 {
        Ok((from_be16(field) as nat, pos + 3))
    } else {
        Ok((from_be32(field) as nat, pos + 5))
    }
}

/// How many payload bytes follow the marker of a number.
pub open spec fn number_width(m: u8) -> int {
    if m == 0xcc || m == 0xd0 {
        1
    } else if m == 0xcd || m == 0xd1 {
        2
    } else if m == 0xca || m == 0xce || m == 0xd2 {
        4
    } else {
        8
    }
}

/// The number that the marker `m` makes of its payload.
pub open spec fn number_value(m: u8, payload: Seq<u8>) -> Value {
    if m == 0xca {
        Value::Float32(from_be32(payload))
    } else if m == 0xcb {
        Value::Float64(from_be64(payload))
    } else if m == 0xcc {
        Value::U8(payload[0])
    } else if m == 0xcd {
        Value::U16(from_be16(payload))
    } else if m == 0xce {
        Value::U32(from_be32(payload))
    } else if m == 0xcf {
        Value::U64(from_be64(payload))
    } else if m == 0xd0 {
        Value::I8(sign8(payload[0]))
    } else if m == 0xd1 {
        Value::I16(sign16(from_be16(payload)))
    } else if m == 0xd2 {
        Value::I32(sign32(from_be32(payload)))
    } else {
        Value::I64(sign64(from_be64(payload)))
    }
}

/// Reads the payload of the number whose marker `m` stands before `pos`.
pub open spec fn decode_number(bytes: Seq<u8>, pos: int, m: u8) -> Parsed<Value> {
    let w = number_width(m);
    if pos + w > bytes.len() {
        Err(DecodeError::TruncatedInput)
    } else {
        Ok((number_value(m, bytes.subrange(pos, pos + w)), pos + w))
    }
}

/// Reads `len` bytes at `pos` as a binary blob.
pub open spec fn decode_bin(bytes: Seq<u8>, pos: int, len: nat) -> Parsed<Value> {
    if pos + len > bytes.len() {
        Err(DecodeError::TruncatedInput)
    } else {
        Ok((Value::Binary(bytes.subrange(pos, pos + len)), pos + len))
    }
}

/// Reads `len` bytes at `pos` as a string, which must be valid UTF-8.
pub open spec fn decode_str(bytes: Seq<u8>, pos: int, len: nat) -> Parsed<Value> {
    let payload = bytes.subrange(pos, pos + len);
    if pos + len > bytes.len() {
        Err(DecodeError::TruncatedInput)
    } else if !valid_utf8(payload) {
        Err(DecodeError::InvalidEncoding)
    } else {
        Ok((Value::Str(decode_utf8(payload)), pos + len))
    }
}

/// Seconds and nanoseconds held by a timestamp payload, by its length:
/// 4 bytes of seconds; 8 bytes of a packed word, nanoseconds above the low
/// 34 bits of seconds; or 4 bytes of nanoseconds before 8 of signed seconds.
pub open spec fn timestamp_fields(payload: Seq<u8>) -> Option<(i64, u32)> {
    if payload.len() == 4 {
        Some((from_be32(payload) as i64, 0u32))
    } else if payload.len() == 8 {
        let packed = from_be64(payload);
        Some(((packed % PACKED_SECONDS) as i64, (packed / PACKED_SECONDS) as u32))
    } else if payload.len() == 12 {
        Some((sign64(from_be64(payload.subrange(4, 12))), from_be32(payload.subrange(0, 4))))
    } else {
        None
    }
}

/// What an extension with the given type tag and payload is read as.
pub open spec fn extension_value(tag: i8, payload: Seq<u8>) -> Result<Value, DecodeError> {
    if tag != TIMESTAMP_TAG {
        Err(DecodeError::UnsupportedExtensionType)
    } else {
        match timestamp_fields(payload) {
            None => Err(DecodeError::InvalidTimestampLength),
            Some((seconds, nanoseconds)) => if utc_instant_exists(seconds, nanoseconds) {
                Ok(Value::Timestamp { seconds, nanoseconds })
            } else {
                Err(DecodeError::UnrepresentableInstant)
            },
        }
    }
}

/// Reads the type tag at `pos` and the `len` payload bytes after it.
pub open spec fn decode_ext(bytes: Seq<u8>, pos: int, len: nat) -> Parsed<Value> {
    if pos + 1 + len > bytes.len() {
        Err(DecodeError::TruncatedInput)
    } else {
        match extension_value(sign8(bytes[pos]), bytes.subrange(pos + 1, pos + 1 + len)) {
            Ok(v) => Ok((v, pos + 1 + len)),
            Err(e) => Err(e),
        }
    }
}

/// The sign by which an array of two is taken for a mod descriptor: its
/// first element is a string of exactly two bytes.
pub open spec fn looks_like_mod_descriptor(first: Value) -> bool {
    first matches Value::Str(text) && encode_utf8(text).len() == 2
}

/// Reads one value at `pos`.
///
/// `pair_mode` matters only where the value is an array: its elements are
/// then read two by two into a mapping. `depth` is how many containers may
/// still be entered.
pub open spec fn decode_value(bytes: Seq<u8>, pos: int, pair_mode: bool, depth: nat) -> Parsed<
    Value,
>
    decreases depth, 1nat, 0nat,
{
    if pos < 0 || pos >= bytes.len() {
        Err(DecodeError::TruncatedInput)
    } else {
        let m = bytes[pos];
        if m <= 0x7f {
            Ok((Value::U8(m), pos + 1))
        } else if m >= 0xe0 {
            Ok((Value::I8(sign8(m)), pos + 1))
        } else if m == 0xc0 {
            Ok((Value::Nil, pos + 1))
        } else if m == 0xc1 {
            Err(DecodeError::UnsupportedMarker)
        } else if m == 0xc2 {
            Ok((Value::Bool(false), pos + 1))
        } else if m == 0xc3 {
            Ok((Value::Bool(true), pos + 1))
        } else if is_number_marker(m) {
            decode_number(bytes, pos + 1, m)
        } else {
            match length_field(bytes, pos, m) {
                Err(e) => Err(e),
                Ok((len, body)) => if is_str_marker(m) {
                    decode_str(bytes, body, len)
                } else if is_bin_marker(m) {
                    decode_bin(bytes, body, len)
                } else if is_ext_marker(m) {
                    decode_ext(bytes, body, len)
                } else if depth == 0 {
                    Err(DecodeError::DepthLimitExceeded)
                } else if is_array_marker(m) {
                    decode_array(bytes, body, len, pair_mode, (depth - 1) as nat)
                } else {
                    decode_map(bytes, body, len, (depth - 1) as nat)
                },
            }
        }
    }
}

/// Reads the body of an array that announced `len` elements.
///
/// In pair mode the body holds `len` keys and values in turn and makes a
/// mapping. Otherwise an array of two whose first element
/// [`looks_like_mod_descriptor`] is a mod descriptor, whose second element is
/// read in pair mode; any other array is the sequence of its elements.
pub open spec fn decode_array(
    bytes: Seq<u8>,
    pos: int,
    len: nat,
    pair_mode: bool,
    depth: nat,
) -> Parsed<Value>
    decreases depth, 4nat, 0nat,
{
    if pair_mode {
        decode_map(bytes, pos, len, depth)
    } else if len == 2 && (decode_value(bytes, pos, false, depth) matches Ok((first, _))
        && looks_like_mod_descriptor(first)) {
        let (first, second_pos) = decode_value(bytes, pos, false, depth).unwrap();
        match decode_value(bytes, second_pos, true, depth) {
            Err(e) => Err(e),
            Ok((settings, end)) => Ok(
                (Value::ModDescriptor { acronym: first->Str_0, settings: Box::new(settings) }, end),
            ),
        }
    } else {
        match decode_items(bytes, pos, len, depth) {
            Err(e) => Err(e),
            Ok((items, end)) => Ok((Value::Array(items), end)),
        }
    }
}

/// Reads the body of a map of `len` entries.
pub open spec fn decode_map(bytes: Seq<u8>, pos: int, len: nat, depth: nat) -> Parsed<Value>
    decreases depth, 3nat, 0nat,
{
    match decode_entries(bytes, pos, len, depth) {
        Err(e) => Err(e),
        Ok((entries, end)) => Ok((Value::Mapping(entries), end)),
    }
}

/// Reads `count` values one after the other, none of them in pair mode.
pub open spec fn decode_items(bytes: Seq<u8>, pos: int, count: nat, depth: nat) -> Parsed<
    Seq<Value>,
>
    decreases depth, 2nat, count,
{
    if count == 0 {
        Ok((Seq::empty(), pos))
    } else {
        match decode_value(bytes, pos, false, depth) {
            Err(e) => Err(e),
            Ok((first, next)) => match decode_items(bytes, next, (count - 1) as nat, depth) {
                Err(e) => Err(e),
                Ok((rest, end)) => Ok((seq![first] + rest, end)),
            },
        }
    }
}

/// Reads `count` entries one after the other, each a key and then a value,
/// none of them in pair mode.
pub open spec fn decode_entries(bytes: Seq<u8>, pos: int, count: nat, depth: nat) -> Parsed<
    Seq<(Value, Value)>,
>
    decreases depth, 2nat, count,
{
    if count == 0 {
        Ok((Seq::empty(), pos))
    } else {
        match decode_value(bytes, pos, false, depth) {
            Err(e) => Err(e),
            Ok((key, value_pos)) => match decode_value(bytes, value_pos, false, depth) {
                Err(e) => Err(e),
                Ok((value, next)) => match decode_entries(
                    bytes,
                    next,
                    (count - 1) as nat,
                    depth,
                ) {
                    Err(e) => Err(e),
                    Ok((rest, end)) => Ok((seq![(key, value)] + rest, end)),
                },
            },
        }
    }
}

/// What a whole buffer is read as: the one value at its start. Bytes after
/// that value are not looked at.
pub open spec fn decoded(bytes: Seq<u8>, depth: nat) -> Result<Value, DecodeError> {
    match decode_value(bytes, 0, false, depth) {
        Ok((v, _)) => Ok(v),
        Err(e) => Err(e),
    }
}

} // verus!
