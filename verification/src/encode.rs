//! The encoder: one dispatch over the kind of a value, which writes the
//! nested values of a container by the same dispatch.

use crate::endian::{push_be32, push_be64, to_u64};
use crate::foreign;
use crate::value::{
    entry_models, lemma_array_model, lemma_mapping_model, models, EncodeError, Value, WireValue,
};
use crate::wire;
use vstd::prelude::*;

verus! {

/// That writing `v` to a buffer that held `before` ended with `r` and a
/// buffer that holds `after`: where `v` has an encoding, it was appended;
/// where it has none, the write failed and the buffer is as it was.
pub open spec fn appended(
    before: Seq<u8>,
    after: Seq<u8>,
    r: Result<(), EncodeError>,
    v: Value,
) -> bool {
    if wire::encodable(v) {
        r is Ok && after == before + wire::encoding(v)
    } else {
        r == Err::<(), EncodeError>(EncodeError::UnsupportedValueKind) && after == before
    }
}

/// Writes nil.
pub fn write_nil(buf: &mut Vec<u8>)
    ensures
        final(buf)@ == old(buf)@ + wire::encoding(Value::Nil),
{
    foreign::write_nil_marker(buf);
}

/// Writes a boolean.
pub fn write_bool(buf: &mut Vec<u8>, val: bool)
    ensures
        final(buf)@ == old(buf)@ + wire::encoding(Value::Bool(val)),
{
    foreign::write_bool_marker(buf, val);
}

/// Writes an integer: as one byte where the marker can hold it, else in the
/// signed 32-bit form where it fits, else in the signed 64-bit form.
pub fn write_integer(buf: &mut Vec<u8>, val: i64)
    ensures
        final(buf)@ == old(buf)@ + wire::int_encoding(val as int),
{
    if 0 <= val && val < 0x80 {
        foreign::write_pfix(buf, val as u8);
    } else if -32 <= val && val < 0 {
        foreign::write_nfix(buf, val as i8);
    } else if -0x8000_0000 <= val && val <= 0x7fff_ffff {
        foreign::write_i32(buf, val as i32);
        assert(buf@ =~= old(buf)@ + wire::int_encoding(val as int));
    } else {
        foreign::write_i64(buf, val);
        assert(buf@ =~= old(buf)@ + wire::int_encoding(val as int));
    }
}

/// Writes a 32-bit float, given as its bit pattern.
pub fn write_float32(buf: &mut Vec<u8>, bits: u32)
    ensures
        final(buf)@ == old(buf)@ + wire::encoding(Value::Float32(bits)),
{
    buf.push(0xca);
    push_be32(buf, bits);
    assert(buf@ =~= old(buf)@ + wire::encoding(Value::Float32(bits)));
}

/// Writes a 64-bit float, given as its bit pattern.
pub fn write_float64(buf: &mut Vec<u8>, bits: u64)
    ensures
        final(buf)@ == old(buf)@ + wire::encoding(Value::Float64(bits)),
{
    buf.push(0xcb);
    push_be64(buf, bits);
    assert(buf@ =~= old(buf)@ + wire::encoding(Value::Float64(bits)));
}

/// Writes a binary blob, unless its length does not fit 32 bits.
pub fn write_bin(buf: &mut Vec<u8>, data: &[u8]) -> (r: Result<(), EncodeError>)
    ensures
        appended(old(buf)@, final(buf)@, r, Value::Binary(data@)),
{
    if data.len() > u32::MAX as usize {
        return Err(EncodeError::UnsupportedValueKind);
    }
    foreign::write_bin(buf, data);
    assert(buf@ =~= old(buf)@ + wire::bin_encoding(data@));
    Ok(())
}

/// Writes a string, unless its length in bytes does not fit 32 bits.
pub fn write_string(buf: &mut Vec<u8>, text: &str) -> (r: Result<(), EncodeError>)
    ensures
        appended(old(buf)@, final(buf)@, r, Value::Str(text@)),
{
    if text.as_bytes().len() > u32::MAX as usize {
        return Err(EncodeError::UnsupportedValueKind);
    }
    foreign::write_str(buf, text);
    assert(buf@ =~= old(buf)@ + wire::str_encoding(text@));
    Ok(())
}

/// The payload of a timestamp in the shortest form that holds it: 4 bytes
/// where the nanoseconds are zero and the seconds fit 32 bits unsigned, else
/// 8 bytes where the seconds lie within 34 bits either way, else 12 bytes.
pub fn timestamp_payload(seconds: i64, nanoseconds: u32) -> (payload: Vec<u8>)
    ensures
        payload@ == wire::timestamp_payload(seconds, nanoseconds),
        payload@.len() == 4 || payload@.len() == 8 || payload@.len() == 12,
{
    let mut payload: Vec<u8> = Vec::new();
    if nanoseconds == 0 && 0 <= seconds && seconds <= 0xffff_ffff {
        push_be32(&mut payload, seconds as u32);
        assert(payload@ =~= crate::endian::be32(seconds as u32));
    } else if -0x4_0000_0000 <= seconds && seconds < 0x4_0000_0000 {
        let low: u64 = if seconds < 0 {
            (seconds + 0x4_0000_0000) as u64
        } else {
            seconds as u64
        };
        let high: u64 = nanoseconds as u64 % wire::PACKED_NANOS;
        let packed: u64 = high * wire::PACKED_SECONDS + low;
        assert(low == (seconds as int) % 0x4_0000_0000);
        assert(packed == wire::packed_timestamp(seconds, nanoseconds));
        push_be64(&mut payload, packed);
        assert(payload@ =~= crate::endian::be64(packed));
    } else {
        push_be32(&mut payload, nanoseconds);
        push_be64(&mut payload, to_u64(seconds));
    }
    payload
}

/// Writes a timestamp: the extension header for the length of its payload
/// and the timestamp tag, then the payload.
pub fn write_timestamp(buf: &mut Vec<u8>, seconds: i64, nanoseconds: u32)
    ensures
        final(buf)@ == old(buf)@ + wire::timestamp_encoding(seconds, nanoseconds),
{
    let mut payload: Vec<u8> = timestamp_payload(seconds, nanoseconds);
    foreign::write_ext_meta(buf, payload.len() as u32, wire::TIMESTAMP_TAG);
    buf.append(&mut payload);
    assert(buf@ =~= old(buf)@ + wire::timestamp_encoding(seconds, nanoseconds));
}

/// Writes an array: its header, then its elements in order. Fails, leaving
/// the buffer as it was, where the array or an element has no encoding.
pub fn write_list(buf: &mut Vec<u8>, items: &Vec<WireValue>) -> (r: Result<(), EncodeError>)
    ensures
        appended(old(buf)@, final(buf)@, r, Value::Array(models(items@))),
    decreases items,
{
    let start: usize = buf.len();
    if items.len() > u32::MAX as usize {
        return Err(EncodeError::UnsupportedValueKind);
    }
    foreign::write_array_len(buf, items.len() as u32);
    let ghost elements = models(items@);
    let mut i: usize = 0;
    while i < items.len()
        invariant
            i <= items.len() <= u32::MAX,
            elements == models(items@),
            start == old(buf)@.len(),
            buf@ == old(buf)@ + wire::array_header(items.len() as u32) + wire::items_encoding(
                elements,
                i as nat,
            ),
            forall|j: int| 0 <= j < i ==> wire::encodable(#[trigger] elements[j]),
        decreases items.len() - i,
    {
        match write_object(buf, &items[i]) {
            Ok(()) => {},
            Err(e) => {
                buf.truncate(start);
                assert(buf@ =~= old(buf)@);
                assert(!wire::encodable(elements[i as int]));
                return Err(e);
            },
        }
        assert(buf@ =~= old(buf)@ + wire::array_header(items.len() as u32) + wire::items_encoding(
            elements,
            (i + 1) as nat,
        ));
        i = i + 1;
    }
    assert(buf@ =~= old(buf)@ + wire::encoding(Value::Array(elements)));
    Ok(())
}

/// Writes the entries of a mapping, key before value, without a header.
/// Fails, leaving the buffer as it was, where a key or a value has no
/// encoding.
fn write_entries(buf: &mut Vec<u8>, entries: &Vec<(WireValue, WireValue)>) -> (r: Result<
    (),
    EncodeError,
>)
    ensures
        match r {
            Ok(()) => {
                &&& forall|j: int|
                    0 <= j < entries@.len() ==> wire::encodable(
                        (#[trigger] entry_models(entries@)[j]).0,
                    ) && wire::encodable(entry_models(entries@)[j].1)
                &&& final(buf)@ == old(buf)@ + wire::entries_encoding(
                    entry_models(entries@),
                    entries@.len(),
                )
            },
            Err(e) => {
                &&& e == EncodeError::UnsupportedValueKind
                &&& final(buf)@ == old(buf)@
                &&& exists|j: int|
                    0 <= j < entries@.len() && !(wire::encodable(
                        (#[trigger] entry_models(entries@)[j]).0,
                    ) && wire::encodable(entry_models(entries@)[j].1))
            },
        },
    decreases entries, 0nat,
{
    let start: usize = buf.len();
    let ghost pairs = entry_models(entries@);
    let mut i: usize = 0;
    while i < entries.len()
        invariant
            i <= entries.len(),
            pairs == entry_models(entries@),
            start == old(buf)@.len(),
            buf@ == old(buf)@ + wire::entries_encoding(pairs, i as nat),
            forall|j: int|
                0 <= j < i ==> wire::encodable((#[trigger] pairs[j]).0) && wire::encodable(
                    pairs[j].1,
                ),
        decreases entries.len() - i,
    {
        let ghost before = buf@;
        match write_object(buf, &entries[i].0) {
            Ok(()) => {},
            Err(e) => {
                buf.truncate(start);
                assert(buf@ =~= old(buf)@);
                assert(!wire::encodable(pairs[i as int].0));
                return Err(e);
            },
        }
        match write_object(buf, &entries[i].1) {
            Ok(()) => {},
            Err(e) => {
                buf.truncate(start);
                assert(buf@ =~= old(buf)@);
                assert(!wire::encodable(pairs[i as int].1));
                return Err(e);
            },
        }
        assert(buf@ =~= old(buf)@ + wire::entries_encoding(pairs, (i + 1) as nat));
        i = i + 1;
    }
    Ok(())
}

/// Writes a mapping: its header, then key and value of each entry in
/// order. Fails, leaving the buffer as it was, where the mapping, a key or
/// a value has no encoding.
pub fn write_hashmap(buf: &mut Vec<u8>, entries: &Vec<(WireValue, WireValue)>) -> (r: Result<
    (),
    EncodeError,
>)
    ensures
        appended(old(buf)@, final(buf)@, r, Value::Mapping(entry_models(entries@))),
    decreases entries, 1nat,
{
    let start: usize = buf.len();
    if entries.len() > u32::MAX as usize {
        return Err(EncodeError::UnsupportedValueKind);
    }
    foreign::write_map_len(buf, entries.len() as u32);
    match write_entries(buf, entries) {
        Ok(()) => {
            assert(buf@ =~= old(buf)@ + wire::encoding(Value::Mapping(entry_models(entries@))));
            Ok(())
        },
        Err(e) => {
            buf.truncate(start);
            assert(buf@ =~= old(buf)@);
            Err(e)
        },
    }
}

/// Writes a mod descriptor as an array of two: the acronym, then an array
/// header that announces the number of settings and is followed by the key
/// and the value of each. Fails, leaving the buffer as it was, where the
/// settings are no mapping or a part has no encoding.
pub fn write_api_mod(buf: &mut Vec<u8>, acronym: &str, settings: &WireValue) -> (r: Result<
    (),
    EncodeError,
>)
    ensures
        appended(
            old(buf)@,
            final(buf)@,
            r,
            Value::ModDescriptor { acronym: acronym@, settings: Box::new(settings@) },
        ),
    decreases settings, 0nat,
{
    proof {
        reveal_with_fuel(wire::encodable, 2);
    }
    let start: usize = buf.len();
    match settings {
        WireValue::Mapping(entries) => {
            proof {
                lemma_mapping_model(*entries);
            }
            if entries.len() > u32::MAX as usize {
                return Err(EncodeError::UnsupportedValueKind);
            }
            foreign::write_array_len(buf, 2);
            match write_string(buf, acronym) {
                Ok(()) => {},
                Err(e) => {
                    buf.truncate(start);
                    assert(buf@ =~= old(buf)@);
                    return Err(e);
                },
            }
            foreign::write_array_len(buf, entries.len() as u32);
            match write_entries(buf, entries) {
                Ok(()) => {
                    assert(buf@ =~= old(buf)@ + wire::encoding(
                        Value::ModDescriptor { acronym: acronym@, settings: Box::new(settings@) },
                    ));
                    Ok(())
                },
                Err(e) => {
                    buf.truncate(start);
                    assert(buf@ =~= old(buf)@);
                    Err(e)
                },
            }
        },
        _ => Err(EncodeError::UnsupportedValueKind),
    }
}

/// Appends the encoding of `obj` to `buf`, or fails and leaves `buf` as it
/// was where `obj`, or a value inside it, has none.
pub fn write_object(buf: &mut Vec<u8>, obj: &WireValue) -> (r: Result<(), EncodeError>)
    ensures
        appended(old(buf)@, final(buf)@, r, obj@),
    decreases obj, 2nat,
{
    match obj {
        WireValue::Nil => {
            write_nil(buf);
            Ok(())
        },
        WireValue::Bool(val) => {
            write_bool(buf, *val);
            Ok(())
        },
        WireValue::U8(n) => {
            write_integer(buf, *n as i64);
            Ok(())
        },
        WireValue::U16(n) => {
            write_integer(buf, *n as i64);
            Ok(())
        },
        WireValue::U32(n) => {
            write_integer(buf, *n as i64);
            Ok(())
        },
        WireValue::U64(n) => {
            if *n > 0x7fff_ffff_ffff_ffff {
                Err(EncodeError::UnsupportedValueKind)
            } else {
                write_integer(buf, *n as i64);
                Ok(())
            }
        },
        WireValue::I8(n) => {
            write_integer(buf, *n as i64);
            Ok(())
        },
        WireValue::I16(n) => {
            write_integer(buf, *n as i64);
            Ok(())
        },
        WireValue::I32(n) => {
            write_integer(buf, *n as i64);
            Ok(())
        },
        WireValue::I64(n) => {
            write_integer(buf, *n);
            Ok(())
        },
        WireValue::Float32(bits) => {
            write_float32(buf, *bits);
            Ok(())
        },
        WireValue::Float64(bits) => {
            write_float64(buf, *bits);
            Ok(())
        },
        WireValue::Binary(data) => write_bin(buf, data.as_slice()),
        WireValue::Str(text) => write_string(buf, text.as_str()),
        WireValue::Array(items) => {
            proof {
                lemma_array_model(*items);
            }
            write_list(buf, items)
        },
        WireValue::Mapping(entries) => {
            proof {
                lemma_mapping_model(*entries);
            }
            write_hashmap(buf, entries)
        },
        WireValue::Timestamp { seconds, nanoseconds } => {
            write_timestamp(buf, *seconds, *nanoseconds);
            Ok(())
        },
        WireValue::ModDescriptor { acronym, settings } => write_api_mod(
            buf,
            acronym.as_str(),
            settings,
        ),
    }
}

/// The encoding of `value`, or the failure where it, or a value inside it,
/// has none.
pub fn encode(value: &WireValue) -> (r: Result<Vec<u8>, EncodeError>)
    ensures
        match r {
            Ok(bytes) => wire::encodable(value@) && bytes@ == wire::encoding(value@),
            Err(e) => !wire::encodable(value@) && e == EncodeError::UnsupportedValueKind,
        },
{
    let mut buf: Vec<u8> = Vec::new();
    match write_object(&mut buf, value) {
        Ok(()) => {
            assert(buf@ =~= wire::encoding(value@));
            Ok(buf)
        },
        Err(e) => Err(e),
    }
}

} // verus!
