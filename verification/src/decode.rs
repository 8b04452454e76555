//! The decoder: one value is read at a cursor by recursive descent over the
//! markers, and an array is resolved into a sequence, a mapping or a mod
//! descriptor by what it holds.

use crate::endian::{read_be16, read_be32, read_be64, to_i16, to_i32, to_i64, to_i8};
use crate::foreign::{is_utc_instant, marker_at, string_from_utf8};
use crate::value::{
    entry_models, lemma_array_model, lemma_mapping_model, models, DecodeError, Value, WireValue,
};
use crate::wire;
use vstd::prelude::*;
use vstd::slice::{slice_subrange, slice_to_vec};

verus! {

/// How many containers [`decode`] lets a value nest.
pub const DEFAULT_DEPTH_LIMIT: usize = 512;

/// A read position in a byte buffer. Reading moves it forward, never back.
pub struct Cursor<'a> {
    pub data: &'a [u8],
    pub pos: usize,
}

/// That a read at `before` ended at `after` with `r`, as `expected` says:
/// the value read and the position after it, or the same error. The buffer
/// is the same and the position has not gone back.
pub open spec fn reads_as(
    before: Cursor<'_>,
    after: Cursor<'_>,
    r: Result<WireValue, DecodeError>,
    expected: wire::Parsed<Value>,
) -> bool {
    &&& after.data@ == before.data@
    &&& before.pos <= after.pos
    &&& match expected {
        Ok((v, next)) => r matches Ok(w) && w@ == v && after.pos == next,
        Err(e) => r matches Err(got) && got == e,
    }
}

/// That `r` is what `expected` says: a value with that model, or the same
/// error.
pub open spec fn yields(r: Result<WireValue, DecodeError>, expected: Result<Value, DecodeError>) -> bool {
    match expected {
        Ok(v) => r matches Ok(w) && w@ == v,
        Err(e) => r matches Err(got) && got == e,
    }
}

impl<'a> Cursor<'a> {
    /// A cursor at the start of `data`.
    pub fn new(data: &'a [u8]) -> (cursor: Self)
        ensures
            cursor.data@ == data@,
            cursor.pos == 0,
    {
        Cursor { data, pos: 0 }
    }

    /// Takes the next `n` bytes, or fails without moving where fewer are
    /// left.
    pub fn take(&mut self, n: usize) -> (r: Result<&'a [u8], DecodeError>)
        ensures
            final(self).data@ == old(self).data@,
            match r {
                Ok(taken) => {
                    &&& old(self).pos + n <= old(self).data@.len()
                    &&& taken@ == old(self).data@.subrange(
                        old(self).pos as int,
                        old(self).pos + n,
                    )
                    &&& final(self).pos == old(self).pos + n
                },
                Err(e) => {
                    &&& e == DecodeError::TruncatedInput
                    &&& old(self).pos + n > old(self).data@.len()
                    &&& final(self).pos == old(self).pos
                },
            },
    {
        let data: &'a [u8] = self.data;
        let len: usize = data.len();
        if self.pos > len || n > len - self.pos {
            return Err(DecodeError::TruncatedInput);
        }
        let taken = slice_subrange(data, self.pos, self.pos + n);
        self.pos = self.pos + n;
        Ok(taken)
    }

    /// Reads the marker byte at the cursor.
    pub fn read_marker(&mut self) -> (r: Result<u8, DecodeError>)
        ensures
            final(self).data@ == old(self).data@,
            match r {
                Ok(m) => {
                    &&& old(self).pos < old(self).data@.len()
                    &&& m == old(self).data@[old(self).pos as int]
                    &&& final(self).pos == old(self).pos + 1
                },
                Err(e) => {
                    &&& e == DecodeError::TruncatedInput
                    &&& old(self).pos >= old(self).data@.len()
                    &&& final(self).pos == old(self).pos
                },
            },
    {
        if self.pos > self.data.len() {
            return Err(DecodeError::TruncatedInput);
        }
        match marker_at(self.data, self.pos) {
            Some(m) => {
                self.pos = self.pos + 1;
                Ok(m)
            },
            None => Err(DecodeError::TruncatedInput),
        }
    }
}

/// Whether `m`, standing at the start of a value, marks one with a length.
spec fn has_length(m: u8) -> bool {
    wire::is_str_marker(m) || wire::is_bin_marker(m) || wire::is_ext_marker(m)
        || wire::is_array_marker(m) || wire::is_map_marker(m)
}

/// Reads the length that the marker `m`, just read, announces.
fn read_length(cursor: &mut Cursor<'_>, m: u8) -> (r: Result<u32, DecodeError>)
    requires
        0 < old(cursor).pos <= old(cursor).data@.len(),
        has_length(m),
    ensures
        final(cursor).data@ == old(cursor).data@,
        old(cursor).pos <= final(cursor).pos,
        match wire::length_field(old(cursor).data@, old(cursor).pos - 1, m) {
            Ok((len, body)) => r == Ok::<u32, DecodeError>(len as u32) && len <= u32::MAX
                && final(cursor).pos == body,
            Err(e) => r == Err::<u32, DecodeError>(e),
        },
{
    if m == 0xc4 || m == 0xc7 || m == 0xd9 {
        match cursor.take(1) {
            Ok(field) => Ok(field[0] as u32),
            Err(e) => Err(e),
        }
    } else if m == 0xc5 || m == 0xc8 || m == 0xda || m == 0xdc || m == 0xde {
        match cursor.take(2) {
            Ok(field) => Ok(read_be16(field) as u32),
            Err(e) => Err(e),
        }
    } else if m == 0xc6 || m == 0xc9 || m == 0xdb || m == 0xdd || m == 0xdf {
        match cursor.take(4) {
            Ok(field) => Ok(read_be32(field)),
            Err(e) => Err(e),
        }
    } else if m == 0xd4 {
        Ok(1)
    } else if m == 0xd5 {
        Ok(2)
    } else if m == 0xd6 {
        Ok(4)
    } else if m == 0xd7 {
        Ok(8)
    } else if m == 0xd8 {
        Ok(16)
    } else if m <= 0x8f {
        Ok((m - 0x80) as u32)
    } else if m <= 0x9f {
        Ok((m - 0x90) as u32)
    } else {
        Ok((m - 0xa0) as u32)
    }
}

/// Reads the payload of the number whose marker `m` was just read.
fn read_number(cursor: &mut Cursor<'_>, m: u8) -> (r: Result<WireValue, DecodeError>)
    requires
        wire::is_number_marker(m),
    ensures
        reads_as(
            *old(cursor),
            *final(cursor),
            r,
            wire::decode_number(old(cursor).data@, old(cursor).pos as int, m),
        ),
{
    let width: usize = if m == 0xcc || m == 0xd0 {
        1
    } else if m == 0xcd || m == 0xd1 {
        2
    } else if m == 0xca || m == 0xce || m == 0xd2 {
        4
    } else {
        8
    };
    let payload = match cursor.take(width) {
        Ok(payload) => payload,
        Err(e) => {
            return Err(e);
        },
    };
    if m == 0xca {
        Ok(WireValue::Float32(read_be32(payload)))
    } else if m == 0xcb {
        Ok(WireValue::Float64(read_be64(payload)))
    } else if m == 0xcc {
        Ok(WireValue::U8(payload[0]))
    } else if m == 0xcd {
        Ok(WireValue::U16(read_be16(payload)))
    } else if m == 0xce {
        Ok(WireValue::U32(read_be32(payload)))
    } else if m == 0xcf {
        Ok(WireValue::U64(read_be64(payload)))
    } else if m == 0xd0 {
        Ok(WireValue::I8(to_i8(payload[0])))
    } else if m == 0xd1 {
        Ok(WireValue::I16(to_i16(read_be16(payload))))
    } else if m == 0xd2 {
        Ok(WireValue::I32(to_i32(read_be32(payload))))
    } else {
        Ok(WireValue::I64(to_i64(read_be64(payload))))
    }
}

/// Reads `len` bytes as a binary blob.
pub fn read_binary(cursor: &mut Cursor<'_>, len: u32) -> (r: Result<WireValue, DecodeError>)
    ensures
        reads_as(
            *old(cursor),
            *final(cursor),
            r,
            wire::decode_bin(old(cursor).data@, old(cursor).pos as int, len as nat),
        ),
{
    match cursor.take(len as usize) {
        Ok(payload) => Ok(WireValue::Binary(slice_to_vec(payload))),
        Err(e) => Err(e),
    }
}

/// Reads `len` bytes as a string. Bytes that are not valid UTF-8 are
/// refused with `InvalidEncoding`.
pub fn read_string(cursor: &mut Cursor<'_>, len: u32) -> (r: Result<WireValue, DecodeError>)
    ensures
        reads_as(
            *old(cursor),
            *final(cursor),
            r,
            wire::decode_str(old(cursor).data@, old(cursor).pos as int, len as nat),
        ),
{
    let payload = match cursor.take(len as usize) {
        Ok(payload) => payload,
        Err(e) => {
            return Err(e);
        },
    };
    match string_from_utf8(slice_to_vec(payload)) {
        Some(text) => {
            proof {
                vstd::utf8::encode_utf8_decode_utf8(text@);
            }
            Ok(WireValue::Str(text))
        },
        None => Err(DecodeError::InvalidEncoding),
    }
}

/// Takes the seconds and nanoseconds out of a timestamp payload of 4, 8 or
/// 12 bytes; there is none in a payload of another length.
pub fn parse_timestamp_payload(data: &[u8]) -> (r: Option<(i64, u32)>)
    ensures
        r == wire::timestamp_fields(data@),
{
    let len: usize = data.len();
    if len == 4 {
        Some((read_be32(data) as i64, 0))
    } else if len == 8 {
        let packed: u64 = read_be64(data);
        Some(((packed % wire::PACKED_SECONDS) as i64, (packed / wire::PACKED_SECONDS) as u32))
    } else if len == 12 {
        let nanoseconds: u32 = read_be32(slice_subrange(data, 0, 4));
        let seconds: i64 = to_i64(read_be64(slice_subrange(data, 4, 12)));
        Some((seconds, nanoseconds))
    } else {
        None
    }
}

/// Makes the timestamp of seconds and nanoseconds that are known to name an
/// instant, and refuses those that are known not to.
pub fn timestamp_from_fields(seconds: i64, nanoseconds: u32, representable: bool) -> (r: Result<
    WireValue,
    DecodeError,
>)
    ensures
        r == (if representable {
            Ok::<WireValue, DecodeError>(WireValue::Timestamp { seconds, nanoseconds })
        } else {
            Err::<WireValue, DecodeError>(DecodeError::UnrepresentableInstant)
        }),
{
    if representable {
        Ok(WireValue::Timestamp { seconds, nanoseconds })
    } else {
        Err(DecodeError::UnrepresentableInstant)
    }
}

/// Reads a timestamp payload: its length selects the form, and the seconds
/// and nanoseconds it holds must name an absolute UTC instant.
pub fn read_timestamp(data: &[u8]) -> (r: Result<WireValue, DecodeError>)
    ensures
        yields(r, wire::extension_value(wire::TIMESTAMP_TAG, data@)),
{
    match parse_timestamp_payload(data) {
        None => Err(DecodeError::InvalidTimestampLength),
        Some((seconds, nanoseconds)) => {
            let representable: bool = is_utc_instant(seconds, nanoseconds);
            timestamp_from_fields(seconds, nanoseconds, representable)
        },
    }
}

/// Reads an extension of `len` payload bytes: its type tag, its payload,
/// and, for the one supported tag, the timestamp in it.
pub fn read_ext(cursor: &mut Cursor<'_>, len: u32) -> (r: Result<WireValue, DecodeError>)
    ensures
        reads_as(
            *old(cursor),
            *final(cursor),
            r,
            wire::decode_ext(old(cursor).data@, old(cursor).pos as int, len as nat),
        ),
{
    let tag: i8 = match cursor.take(1) {
        Ok(field) => to_i8(field[0]),
        Err(e) => {
            return Err(e);
        },
    };
    let payload = match cursor.take(len as usize) {
        Ok(payload) => payload,
        Err(e) => {
            return Err(e);
        },
    };
    if tag == wire::TIMESTAMP_TAG {
        read_timestamp(payload)
    } else {
        Err(DecodeError::UnsupportedExtensionType)
    }
}

/// Whether an array of two that starts with `first` is a mod descriptor:
/// `first` is a string of exactly two bytes.
pub fn looks_like_mod_descriptor(first: &WireValue) -> (r: bool)
    ensures
        r == wire::looks_like_mod_descriptor(first@),
{
    match first {
        WireValue::Str(text) => text.as_str().as_bytes().len() == 2,
        _ => false,
    }
}

/// Reads one value at the cursor and moves the cursor past it.
///
/// `api_mod` is the pair mode: it matters only where the value is an array,
/// whose elements are then read two by two into a mapping. `depth` is how
/// many containers may still be entered.
pub fn read_object(cursor: &mut Cursor<'_>, api_mod: bool, depth: usize) -> (r: Result<
    WireValue,
    DecodeError,
>)
    ensures
        reads_as(
            *old(cursor),
            *final(cursor),
            r,
            wire::decode_value(old(cursor).data@, old(cursor).pos as int, api_mod, depth as nat),
        ),
    decreases depth, 1nat, 0nat,
{
    let m: u8 = match cursor.read_marker() {
        Ok(m) => m,
        Err(e) => {
            return Err(e);
        },
    };
    if m <= 0x7f {
        Ok(WireValue::U8(m))
    } else if m >= 0xe0 {
        Ok(WireValue::I8(to_i8(m)))
    } else if m == 0xc0 {
        Ok(WireValue::Nil)
    } else if m == 0xc1 {
        Err(DecodeError::UnsupportedMarker)
    } else if m == 0xc2 {
        Ok(WireValue::Bool(false))
    } else if m == 0xc3 {
        Ok(WireValue::Bool(true))
    } else if 0xca <= m && m <= 0xd3 {
        read_number(cursor, m)
    } else {
        let len: u32 = match read_length(cursor, m) {
            Ok(len) => len,
            Err(e) => {
                return Err(e);
            },
        };
        if (0xa0 <= m && m <= 0xbf) || (0xd9 <= m && m <= 0xdb) {
            read_string(cursor, len)
        } else if 0xc4 <= m && m <= 0xc6 {
            read_binary(cursor, len)
        } else if (0xc7 <= m && m <= 0xc9) || (0xd4 <= m && m <= 0xd8) {
            read_ext(cursor, len)
        } else if depth == 0 {
            Err(DecodeError::DepthLimitExceeded)
        } else if (0x90 <= m && m <= 0x9f) || m == 0xdc || m == 0xdd {
            read_array(cursor, len, api_mod, depth - 1)
        } else {
            read_map(cursor, len, depth - 1)
        }
    }
}

/// Reads the body of an array that announced `len` elements, and resolves
/// what it is: in pair mode a mapping of `len` entries; else, where `len`
/// is 2 and the first element [`looks_like_mod_descriptor`], a mod
/// descriptor whose settings are the second element read in pair mode; else
/// the sequence of its elements.
pub fn read_array(cursor: &mut Cursor<'_>, len: u32, api_mod: bool, depth: usize) -> (r: Result<
    WireValue,
    DecodeError,
>)
    ensures
        reads_as(
            *old(cursor),
            *final(cursor),
            r,
            wire::decode_array(
                old(cursor).data@,
                old(cursor).pos as int,
                len as nat,
                api_mod,
                depth as nat,
            ),
        ),
    decreases depth, 4nat, 0nat,
{
    if api_mod {
        return read_map(cursor, len, depth);
    }
    let ghost bytes = cursor.data@;
    let ghost start = cursor.pos as int;
    let mut items: Vec<WireValue> = Vec::new();
    let mut i: u32 = 0;
    if len == 2 {
        let first = match read_object(cursor, false, depth) {
            Ok(first) => first,
            Err(e) => {
                return Err(e);
            },
        };
        if looks_like_mod_descriptor(&first) {
            let settings = match read_object(cursor, true, depth) {
                Ok(settings) => settings,
                Err(e) => {
                    return Err(e);
                },
            };
            return match first {
                WireValue::Str(acronym) => Ok(
                    WireValue::ModDescriptor { acronym, settings: Box::new(settings) },
                ),
                _ => vstd::pervasive::unreached(),
            };
        }
        items.push(first);
        i = 1;
        assert(models(items@) =~= seq![first@]);
    }
    while i < len
        invariant
            bytes == old(cursor).data@,
            start == old(cursor).pos,
            cursor.data@ == bytes,
            start <= cursor.pos,
            i <= len,
            !api_mod,
            len == 2 ==> !(wire::decode_value(bytes, start, false, depth as nat) matches Ok(
                (first, _),
            ) && wire::looks_like_mod_descriptor(first)),
            wire::decode_items(bytes, start, len as nat, depth as nat) == prepend_items(
                models(items@),
                wire::decode_items(bytes, cursor.pos as int, (len - i) as nat, depth as nat),
            ),
        decreases len - i,
    {
        let item = match read_object(cursor, false, depth) {
            Ok(item) => item,
            Err(e) => {
                return Err(e);
            },
        };
        let ghost before = models(items@);
        items.push(item);
        i = i + 1;
        proof {
            assert(models(items@) =~= before + seq![item@]);
            let rest = wire::decode_items(bytes, cursor.pos as int, (len - i) as nat, depth as nat);
            if let Ok((tail, end)) = rest {
                assert((before + seq![item@]) + tail =~= before + (seq![item@] + tail));
            }
        }
    }
    proof {
        lemma_array_model(items);
        assert(models(items@) + Seq::<Value>::empty() =~= models(items@));
    }
    Ok(WireValue::Array(items))
}

/// The items read so far, put before what the rest reads as.
pub open spec fn prepend_items(done: Seq<Value>, rest: wire::Parsed<Seq<Value>>) -> wire::Parsed<
    Seq<Value>,
> {
    match rest {
        Ok((tail, end)) => Ok((done + tail, end)),
        Err(e) => Err(e),
    }
}

/// The entries read so far, put before what the rest reads as.
pub open spec fn prepend_entries(
    done: Seq<(Value, Value)>,
    rest: wire::Parsed<Seq<(Value, Value)>>,
) -> wire::Parsed<Seq<(Value, Value)>> {
    match rest {
        Ok((tail, end)) => Ok((done + tail, end)),
        Err(e) => Err(e),
    }
}

/// Reads the body of a map of `len` entries, each a key and then a value,
/// into a mapping that keeps them in wire order.
pub fn read_map(cursor: &mut Cursor<'_>, len: u32, depth: usize) -> (r: Result<
    WireValue,
    DecodeError,
>)
    ensures
        reads_as(
            *old(cursor),
            *final(cursor),
            r,
            wire::decode_map(old(cursor).data@, old(cursor).pos as int, len as nat, depth as nat),
        ),
    decreases depth, 3nat, 0nat,
{
    let ghost bytes = cursor.data@;
    let ghost start = cursor.pos as int;
    let mut entries: Vec<(WireValue, WireValue)> = Vec::new();
    let mut i: u32 = 0;
    while i < len
        invariant
            bytes == old(cursor).data@,
            start == old(cursor).pos,
            cursor.data@ == bytes,
            start <= cursor.pos,
            i <= len,
            wire::decode_entries(bytes, start, len as nat, depth as nat) == prepend_entries(
                entry_models(entries@),
                wire::decode_entries(bytes, cursor.pos as int, (len - i) as nat, depth as nat),
            ),
        decreases len - i,
    {
        let key = match read_object(cursor, false, depth) {
            Ok(key) => key,
            Err(e) => {
                return Err(e);
            },
        };
        let value = match read_object(cursor, false, depth) {
            Ok(value) => value,
            Err(e) => {
                return Err(e);
            },
        };
        let ghost before = entry_models(entries@);
        let ghost entry = (key@, value@);
        entries.push((key, value));
        i = i + 1;
        proof {
            assert(entry_models(entries@) =~= before + seq![entry]);
            let rest = wire::decode_entries(
                bytes,
                cursor.pos as int,
                (len - i) as nat,
                depth as nat,
            );
            if let Ok((tail, end)) = rest {
                assert((before + seq![entry]) + tail =~= before + (seq![entry] + tail));
            }
        }
    }
    proof {
        lemma_mapping_model(entries);
        assert(entry_models(entries@) + Seq::<(Value, Value)>::empty() =~= entry_models(entries@));
    }
    Ok(WireValue::Mapping(entries))
}

/// Decodes the one value at the start of `data`, letting containers nest
/// `depth` deep. Bytes after the value are not looked at.
pub fn decode_with_limit(data: &[u8], depth: usize) -> (r: Result<WireValue, DecodeError>)
    ensures
        yields(r, wire::decoded(data@, depth as nat)),
{
    let mut cursor = Cursor::new(data);
    read_object(&mut cursor, false, depth)
}

/// Decodes the one value at the start of `data`, with the default limit on
/// nesting. Bytes after the value are not looked at.
pub fn decode(data: &[u8]) -> (r: Result<WireValue, DecodeError>)
    ensures
        yields(r, wire::decoded(data@, DEFAULT_DEPTH_LIMIT as nat)),
{
    decode_with_limit(data, DEFAULT_DEPTH_LIMIT)
}

} // verus!
