//! Decoding what was encoded: on which values it gives the value back, and
//! what it gives where it does not.

use crate::endian::{
    be32, be64, lemma_be32_round_trip, lemma_be64_round_trip, lemma_sign_wrap_inverse, wrap32,
    wrap64, wrap8,
};
use crate::foreign::utc_instant_exists;
use crate::framing::{
    holds_at, lemma_array_header_reads, lemma_bin_header_reads, lemma_ext_header_reads,
    lemma_holds_at_byte, lemma_holds_at_self, lemma_holds_at_split, lemma_map_header_reads,
    lemma_str_header_reads,
};
use crate::value::{DecodeError, Value};
use crate::wire::{
    array_header, bin_encoding, bin_header, decode_array, decode_entries, decode_items,
    decode_map, decode_value, decoded, encodable, encoding, entries_encoding, ext_header,
    int_encoding, integer_of, items_encoding, looks_like_mod_descriptor, map_header,
    str_encoding, str_header, timestamp_encoding, timestamp_fields, timestamp_payload,
    PACKED_NANOS, PACKED_SECONDS, TIMESTAMP_TAG,
};
use vstd::prelude::*;
use vstd::utf8::{encode_utf8, encode_utf8_decode_utf8, encode_utf8_valid_utf8};

verus! {

/// The value that an integer is read back as: the width is that of the
/// form it was written in, the number is the same.
pub open spec fn normal_integer(n: int) -> Value {
    if 0 <= n < 0x80 {
        Value::U8(n as u8)
    } else if -32 <= n < 0 {
        Value::I8(n as i8)
    } else if i32::MIN <= n <= i32::MAX {
        Value::I32(n as i32)
    } else {
        Value::I64(n as i64)
    }
}

/// The value that a value is read back as: the same, but for the widths of
/// the integers in it.
pub open spec fn normalized(v: Value) -> Value
    decreases v,
{
    match v {
        Value::Array(items) => Value::Array(
            Seq::new(
                items.len(),
                |i: int|
                    if 0 <= i < items.len() {
                        normalized(items[i])
                    } else {
                        Value::Nil
                    },
            ),
        ),
        Value::Mapping(entries) => Value::Mapping(
            Seq::new(
                entries.len(),
                |i: int|
                    if 0 <= i < entries.len() {
                        (normalized(entries[i].0), normalized(entries[i].1))
                    } else {
                        (Value::Nil, Value::Nil)
                    },
            ),
        ),
        Value::ModDescriptor { acronym, settings } => Value::ModDescriptor {
            acronym,
            settings: Box::new(normalized(*settings)),
        },
        _ => match integer_of(v) {
            Some(n) => normal_integer(n),
            None => v,
        },
    }
}

/// Each of `items` as it is read back.
pub open spec fn normalized_items(items: Seq<Value>) -> Seq<Value> {
    Seq::new(items.len(), |i: int| normalized(items[i]))
}

/// Each of `entries` as it is read back.
pub open spec fn normalized_entries(entries: Seq<(Value, Value)>) -> Seq<(Value, Value)> {
    Seq::new(entries.len(), |i: int| (normalized(entries[i].0), normalized(entries[i].1)))
}

/// Whether the form that a timestamp is written in holds all of it. The
/// 4-byte and the 12-byte form do. The 8-byte form keeps only 34 bits of
/// the seconds, without a sign, and 30 bits of the nanoseconds.
pub open spec fn timestamp_survives(seconds: i64, nanoseconds: u32) -> bool {
    ||| nanoseconds == 0 && 0 <= seconds <= u32::MAX
    ||| !(-PACKED_SECONDS <= seconds < PACKED_SECONDS)
    ||| 0 <= seconds && nanoseconds < PACKED_NANOS
}

/// The values that come back from their encoding, when containers may be
/// entered `depth` deep:
/// - the value has an encoding;
/// - a timestamp names an instant and its form holds all of it;
/// - no array is an array of two that starts with a string of two bytes,
///   which would be read as a mod descriptor;
/// - a mod descriptor has an acronym of two bytes and a mapping as its
///   settings;
/// - containers nest no deeper than `depth`, a mod descriptor counting for
///   two.
pub open spec fn round_trips(v: Value, depth: nat) -> bool
    decreases v,
{
    match v {
        Value::U64(n) => n <= i64::MAX,
        Value::Binary(data) => data.len() <= u32::MAX,
        Value::Str(text) => encode_utf8(text).len() <= u32::MAX,
        Value::Timestamp { seconds, nanoseconds } => utc_instant_exists(seconds, nanoseconds)
            && timestamp_survives(seconds, nanoseconds),
        Value::Array(items) => {
            &&& depth > 0
            &&& items.len() <= u32::MAX
            &&& !(items.len() == 2 && looks_like_mod_descriptor(items[0]))
            &&& forall|i: int|
                0 <= i < items.len() ==> round_trips(#[trigger] items[i], (depth - 1) as nat)
        },
        Value::Mapping(entries) => {
            &&& depth > 0
            &&& entries.len() <= u32::MAX
            &&& forall|i: int|
                0 <= i < entries.len() ==> round_trips(
                    (#[trigger] entries[i]).0,
                    (depth - 1) as nat,
                ) && round_trips(entries[i].1, (depth - 1) as nat)
        },
        Value::ModDescriptor { acronym, settings } => {
            &&& depth > 0
            &&& encode_utf8(acronym).len() == 2
            &&& *settings is Mapping
            &&& round_trips(*settings, (depth - 1) as nat)
        },
        _ => true,
    }
}

/// The encodings of `items` from the one at `k` on.
pub open spec fn items_tail(items: Seq<Value>, k: nat) -> Seq<u8>
    decreases items.len() - k,
{
    if k >= items.len() {
        Seq::empty()
    } else {
        encoding(items[k as int]) + items_tail(items, k + 1)
    }
}

/// The encodings of `entries` from the one at `k` on.
pub open spec fn entries_tail(entries: Seq<(Value, Value)>, k: nat) -> Seq<u8>
    decreases entries.len() - k,
{
    if k >= entries.len() {
        Seq::empty()
    } else {
        encoding(entries[k as int].0) + encoding(entries[k as int].1) + entries_tail(
            entries,
            k + 1,
        )
    }
}

proof fn lemma_items_split(items: Seq<Value>, k: nat)
    requires
        k <= items.len(),
    ensures
        items_encoding(items, items.len()) == items_encoding(items, k) + items_tail(items, k),
    decreases items.len() - k,
{
    if k < items.len() {
        lemma_items_split(items, k + 1);
        assert(items_encoding(items, k + 1) == items_encoding(items, k) + encoding(
            items[k as int],
        ));
        assert(items_encoding(items, k + 1) + items_tail(items, k + 1) =~= items_encoding(
            items,
            k,
        ) + items_tail(items, k));
    } else {
        assert(items_encoding(items, k) + items_tail(items, k) =~= items_encoding(items, k));
    }
}

proof fn lemma_entries_split(entries: Seq<(Value, Value)>, k: nat)
    requires
        k <= entries.len(),
    ensures
        entries_encoding(entries, entries.len()) == entries_encoding(entries, k) + entries_tail(
            entries,
            k,
        ),
    decreases entries.len() - k,
{
    if k < entries.len() {
        lemma_entries_split(entries, k + 1);
        assert(entries_encoding(entries, k + 1) == entries_encoding(entries, k) + encoding(
            entries[k as int].0,
        ) + encoding(entries[k as int].1));
        assert(entries_encoding(entries, k + 1) + entries_tail(entries, k + 1)
            =~= entries_encoding(entries, k) + entries_tail(entries, k));
    } else {
        assert(entries_encoding(entries, k) + entries_tail(entries, k) =~= entries_encoding(
            entries,
            k,
        ));
    }
}

/// An integer is read back with its number, in the width of its form.
pub proof fn lemma_integer_reads_back(bytes: Seq<u8>, pos: int, n: int, pair_mode: bool, depth: nat)
    requires
        i64::MIN <= n <= i64::MAX,
        holds_at(bytes, pos, int_encoding(n)),
    ensures
        decode_value(bytes, pos, pair_mode, depth) == Ok::<(Value, int), DecodeError>(
            (normal_integer(n), pos + int_encoding(n).len()),
        ),
        integer_of(normal_integer(n)) == Some(n),
{
    lemma_sign_wrap_inverse();
    lemma_holds_at_byte(bytes, pos, int_encoding(n), 0);
    if 0 <= n < 0x80 {
    } else if -32 <= n < 0 {
        assert(crate::endian::sign8(wrap8(n as i8)) == n as i8);
    } else if i32::MIN <= n <= i32::MAX {
        let payload = be32(wrap32(n as i32));
        lemma_be32_round_trip(wrap32(n as i32));
        lemma_holds_at_split(bytes, pos, seq![0xd2u8], payload);
        assert(crate::endian::sign32(wrap32(n as i32)) == n as i32);
    } else {
        let payload = be64(wrap64(n as i64));
        lemma_be64_round_trip(wrap64(n as i64));
        lemma_holds_at_split(bytes, pos, seq![0xd3u8], payload);
        assert(crate::endian::sign64(wrap64(n as i64)) == n as i64);
    }
}

/// A float is read back bit for bit.
pub proof fn lemma_float_reads_back(bytes: Seq<u8>, pos: int, v: Value, pair_mode: bool, depth: nat)
    requires
        v is Float32 || v is Float64,
        holds_at(bytes, pos, encoding(v)),
    ensures
        decode_value(bytes, pos, pair_mode, depth) == Ok::<(Value, int), DecodeError>(
            (v, pos + encoding(v).len()),
        ),
{
    lemma_holds_at_byte(bytes, pos, encoding(v), 0);
    match v {
        Value::Float32(bits) => {
            lemma_be32_round_trip(bits);
            lemma_holds_at_split(bytes, pos, seq![0xcau8], be32(bits));
        },
        Value::Float64(bits) => {
            lemma_be64_round_trip(bits);
            lemma_holds_at_split(bytes, pos, seq![0xcbu8], be64(bits));
        },
        _ => {},
    }
}

/// A string is read back as it was.
pub proof fn lemma_str_reads_back(
    bytes: Seq<u8>,
    pos: int,
    text: Seq<char>,
    pair_mode: bool,
    depth: nat,
)
    requires
        encode_utf8(text).len() <= u32::MAX,
        holds_at(bytes, pos, str_encoding(text)),
    ensures
        decode_value(bytes, pos, pair_mode, depth) == Ok::<(Value, int), DecodeError>(
            (Value::Str(text), pos + str_encoding(text).len()),
        ),
{
    let payload = encode_utf8(text);
    let header = str_header(payload.len() as u32);
    lemma_holds_at_split(bytes, pos, header, payload);
    lemma_str_header_reads(bytes, pos, payload.len() as u32, pair_mode, depth);
    encode_utf8_valid_utf8(text);
    encode_utf8_decode_utf8(text);
}

/// A binary blob is read back as it was.
pub proof fn lemma_bin_reads_back(
    bytes: Seq<u8>,
    pos: int,
    data: Seq<u8>,
    pair_mode: bool,
    depth: nat,
)
    requires
        data.len() <= u32::MAX,
        holds_at(bytes, pos, bin_encoding(data)),
    ensures
        decode_value(bytes, pos, pair_mode, depth) == Ok::<(Value, int), DecodeError>(
            (Value::Binary(data), pos + bin_encoding(data).len()),
        ),
{
    let header = bin_header(data.len() as u32);
    lemma_holds_at_split(bytes, pos, header, data);
    lemma_bin_header_reads(bytes, pos, data.len() as u32, pair_mode, depth);
}

/// The packed word holds the seconds modulo 2^34 in its low 34 bits and
/// the nanoseconds modulo 2^30 above them.
pub proof fn lemma_packed_word(seconds: i64, nanoseconds: u32)
    ensures
        crate::wire::packed_timestamp(seconds, nanoseconds) % PACKED_SECONDS == (seconds as int)
            % (PACKED_SECONDS as int),
        crate::wire::packed_timestamp(seconds, nanoseconds) / PACKED_SECONDS == (
        nanoseconds as int) % (PACKED_NANOS as int),
        crate::wire::packed_timestamp(seconds, nanoseconds) == ((nanoseconds as u64) << 34) | (
        wrap64(seconds) & 0x3_ffff_ffff),
{
    let packed = crate::wire::packed_timestamp(seconds, nanoseconds);
    let high = (nanoseconds as int) % 0x4000_0000;
    let low = (seconds as int) % 0x4_0000_0000;
    assert(packed == high * 0x4_0000_0000 + low);
    let n = nanoseconds as u64;
    let s = wrap64(seconds);
    assert(s as int % 0x4_0000_0000 == low);
    assert(((n << 34) | (s & 0x3_ffff_ffff)) == (n % 0x4000_0000) * 0x4_0000_0000 + (s
        % 0x4_0000_0000)) by (bit_vector)
        requires
            n < 0x1_0000_0000,
    ;
}

proof fn lemma_short_payload(seconds: i64)
    requires
        0 <= seconds <= u32::MAX,
    ensures
        be32(seconds as u32).len() == 4,
        timestamp_fields(be32(seconds as u32)) == Some((seconds, 0u32)),
{
    lemma_be32_round_trip(seconds as u32);
}

/// What the 8-byte form gives back: the seconds modulo 2^34, so that
/// seconds below zero come back raised by 2^34, and the nanoseconds modulo
/// 2^30.
pub proof fn lemma_packed_payload(seconds: i64, nanoseconds: u32)
    ensures
        be64(crate::wire::packed_timestamp(seconds, nanoseconds)).len() == 8,
        timestamp_fields(be64(crate::wire::packed_timestamp(seconds, nanoseconds))) == Some(
            (
                ((seconds as int) % (PACKED_SECONDS as int)) as i64,
                ((nanoseconds as int) % (PACKED_NANOS as int)) as u32,
            ),
        ),
        0 <= seconds < PACKED_SECONDS && nanoseconds < PACKED_NANOS ==> timestamp_fields(
            be64(crate::wire::packed_timestamp(seconds, nanoseconds)),
        ) == Some((seconds, nanoseconds)),
{
    let packed = crate::wire::packed_timestamp(seconds, nanoseconds);
    lemma_be64_round_trip(packed);
    lemma_packed_word(seconds, nanoseconds);
}

proof fn lemma_long_payload(seconds: i64, nanoseconds: u32)
    ensures
        (be32(nanoseconds) + be64(wrap64(seconds))).len() == 12,
        timestamp_fields(be32(nanoseconds) + be64(wrap64(seconds))) == Some(
            (seconds, nanoseconds),
        ),
{
    let payload = be32(nanoseconds) + be64(wrap64(seconds));
    lemma_sign_wrap_inverse();
    lemma_be32_round_trip(nanoseconds);
    lemma_be64_round_trip(wrap64(seconds));
    assert(payload.subrange(0, 4) =~= be32(nanoseconds));
    assert(payload.subrange(4, 12) =~= be64(wrap64(seconds)));
    assert(crate::endian::sign64(wrap64(seconds)) == seconds);
}

/// The payload of a timestamp is 4, 8 or 12 bytes long, as the seconds and
/// nanoseconds select; and where its form holds all of the timestamp, the
/// seconds and nanoseconds read from it are those that were written.
pub proof fn lemma_timestamp_payload(seconds: i64, nanoseconds: u32)
    ensures
        timestamp_payload(seconds, nanoseconds).len() == (if nanoseconds == 0 && 0 <= seconds
            <= u32::MAX {
            4nat
        } else if -PACKED_SECONDS <= seconds < PACKED_SECONDS {
            8nat
        } else {
            12nat
        }),
        timestamp_survives(seconds, nanoseconds) ==> timestamp_fields(
            timestamp_payload(seconds, nanoseconds),
        ) == Some((seconds, nanoseconds)),
{
    if nanoseconds == 0 && 0 <= seconds <= u32::MAX {
        lemma_short_payload(seconds);
    } else if -PACKED_SECONDS <= seconds < PACKED_SECONDS {
        lemma_packed_payload(seconds, nanoseconds);
    } else {
        lemma_long_payload(seconds, nanoseconds);
    }
}

/// A timestamp that names an instant, in a form that holds all of it, is
/// read back as it was.
pub proof fn lemma_timestamp_reads_back(
    bytes: Seq<u8>,
    pos: int,
    seconds: i64,
    nanoseconds: u32,
    pair_mode: bool,
    depth: nat,
)
    requires
        utc_instant_exists(seconds, nanoseconds),
        timestamp_survives(seconds, nanoseconds),
        holds_at(bytes, pos, timestamp_encoding(seconds, nanoseconds)),
    ensures
        decode_value(bytes, pos, pair_mode, depth) == Ok::<(Value, int), DecodeError>(
            (
                Value::Timestamp { seconds, nanoseconds },
                pos + timestamp_encoding(seconds, nanoseconds).len(),
            ),
        ),
{
    lemma_sign_wrap_inverse();
    lemma_timestamp_payload(seconds, nanoseconds);
    let payload = timestamp_payload(seconds, nanoseconds);
    let header = ext_header(payload.len() as u32, TIMESTAMP_TAG);
    lemma_holds_at_split(bytes, pos, header, payload);
    lemma_ext_header_reads(bytes, pos, payload.len() as u32, TIMESTAMP_TAG, pair_mode, depth);
    assert(crate::endian::sign8(wrap8(TIMESTAMP_TAG)) == TIMESTAMP_TAG);
}

/// Whether a value is taken for the head of a mod descriptor does not
/// depend on the widths of integers.
proof fn lemma_normalized_keeps_sign(v: Value)
    ensures
        looks_like_mod_descriptor(normalized(v)) == looks_like_mod_descriptor(v),
{
}

proof fn lemma_items_read_back(bytes: Seq<u8>, pos: int, items: Seq<Value>, k: nat, depth: nat)
    requires
        k <= items.len(),
        holds_at(bytes, pos, items_tail(items, k)),
        forall|i: int| k <= i < items.len() ==> round_trips(#[trigger] items[i], depth),
    ensures
        decode_items(bytes, pos, (items.len() - k) as nat, depth) == Ok::<
            (Seq<Value>, int),
            DecodeError,
        >(
            (
                normalized_items(items).subrange(k as int, items.len() as int),
                pos + items_tail(items, k).len(),
            ),
        ),
        forall|i: int| k <= i < items.len() ==> encodable(#[trigger] items[i]),
    decreases items, (items.len() - k) as nat,
{
    let n = items.len() as int;
    if k < items.len() {
        let first = items[k as int];
        lemma_holds_at_split(bytes, pos, encoding(first), items_tail(items, k + 1));
        lemma_reads_back(bytes, pos, first, depth);
        lemma_items_read_back(bytes, pos + encoding(first).len(), items, k + 1, depth);
        assert(seq![normalized(first)] + normalized_items(items).subrange(k as int + 1, n)
            =~= normalized_items(items).subrange(k as int, n));
        assert forall|i: int| k <= i < items.len() implies encodable(#[trigger] items[i]) by {
            if i > k {
                assert(encodable(items[i]));
            }
        }
    } else {
        assert(normalized_items(items).subrange(k as int, n) =~= Seq::<Value>::empty());
    }
}

proof fn lemma_entries_read_back(
    bytes: Seq<u8>,
    pos: int,
    entries: Seq<(Value, Value)>,
    k: nat,
    depth: nat,
)
    requires
        k <= entries.len(),
        holds_at(bytes, pos, entries_tail(entries, k)),
        forall|i: int|
            k <= i < entries.len() ==> round_trips((#[trigger] entries[i]).0, depth)
                && round_trips(entries[i].1, depth),
    ensures
        decode_entries(bytes, pos, (entries.len() - k) as nat, depth) == Ok::<
            (Seq<(Value, Value)>, int),
            DecodeError,
        >(
            (
                normalized_entries(entries).subrange(k as int, entries.len() as int),
                pos + entries_tail(entries, k).len(),
            ),
        ),
        forall|i: int|
            k <= i < entries.len() ==> encodable((#[trigger] entries[i]).0) && encodable(
                entries[i].1,
            ),
    decreases entries, (entries.len() - k) as nat,
{
    let n = entries.len() as int;
    if k < entries.len() {
        let key = entries[k as int].0;
        let value = entries[k as int].1;
        lemma_holds_at_split(
            bytes,
            pos,
            encoding(key) + encoding(value),
            entries_tail(entries, k + 1),
        );
        lemma_holds_at_split(bytes, pos, encoding(key), encoding(value));
        lemma_reads_back(bytes, pos, key, depth);
        lemma_reads_back(bytes, pos + encoding(key).len(), value, depth);
        lemma_entries_read_back(
            bytes,
            pos + encoding(key).len() + encoding(value).len(),
            entries,
            k + 1,
            depth,
        );
        assert(seq![(normalized(key), normalized(value))] + normalized_entries(entries).subrange(
            k as int + 1,
            n,
        ) =~= normalized_entries(entries).subrange(k as int, n));
        assert forall|i: int| k <= i < entries.len() implies encodable((#[trigger] entries[i]).0)
            && encodable(entries[i].1) by {
            if i > k {
                assert(encodable(entries[i].0));
            }
        }
    } else {
        assert(normalized_entries(entries).subrange(k as int, n) =~= Seq::<
            (Value, Value),
        >::empty());
    }
}

proof fn lemma_array_reads_back(bytes: Seq<u8>, pos: int, items: Seq<Value>, depth: nat)
    requires
        round_trips(Value::Array(items), depth),
        holds_at(bytes, pos, encoding(Value::Array(items))),
    ensures
        encodable(Value::Array(items)),
        decode_value(bytes, pos, false, depth) == Ok::<(Value, int), DecodeError>(
            (normalized(Value::Array(items)), pos + encoding(Value::Array(items)).len()),
        ),
    decreases items, items.len() + 1,
{
    let v = Value::Array(items);
    let n = items.len();
    let header = array_header(n as u32);
    let inner = (depth - 1) as nat;
    lemma_holds_at_split(bytes, pos, header, items_encoding(items, n));
    lemma_array_header_reads(bytes, pos, n as u32, false, depth);
    lemma_items_split(items, 0);
    assert(items_encoding(items, 0) + items_tail(items, 0) =~= items_tail(items, 0));
    let body = pos + header.len();
    lemma_items_read_back(bytes, body, items, 0, inner);
    assert(normalized_items(items).subrange(0, n as int) =~= normalized(v)->Array_0);
    let read = decode_items(bytes, body, n, inner);
    if n == 2 {
        lemma_holds_at_split(bytes, body, encoding(items[0]), items_tail(items, 1));
        lemma_reads_back(bytes, body, items[0], inner);
        lemma_normalized_keeps_sign(items[0]);
        assert(!looks_like_mod_descriptor(normalized(items[0])));
    }
    assert(decode_array(bytes, body, n, false, inner) == Ok::<(Value, int), DecodeError>(
        (Value::Array(read.unwrap().0), read.unwrap().1),
    ));
}

proof fn lemma_mapping_reads_back(
    bytes: Seq<u8>,
    pos: int,
    entries: Seq<(Value, Value)>,
    depth: nat,
)
    requires
        round_trips(Value::Mapping(entries), depth),
        holds_at(bytes, pos, encoding(Value::Mapping(entries))),
    ensures
        encodable(Value::Mapping(entries)),
        decode_value(bytes, pos, false, depth) == Ok::<(Value, int), DecodeError>(
            (normalized(Value::Mapping(entries)), pos + encoding(Value::Mapping(entries)).len()),
        ),
    decreases entries, entries.len() + 1,
{
    let v = Value::Mapping(entries);
    let n = entries.len();
    let header = map_header(n as u32);
    let inner = (depth - 1) as nat;
    lemma_holds_at_split(bytes, pos, header, entries_encoding(entries, n));
    lemma_map_header_reads(bytes, pos, n as u32, false, depth);
    lemma_entries_split(entries, 0);
    assert(entries_encoding(entries, 0) + entries_tail(entries, 0) =~= entries_tail(entries, 0));
    lemma_entries_read_back(bytes, pos + header.len(), entries, 0, inner);
    assert(normalized_entries(entries).subrange(0, n as int) =~= normalized(v)->Mapping_0);
}

proof fn lemma_settings_read_back(
    bytes: Seq<u8>,
    pos: int,
    entries: Seq<(Value, Value)>,
    depth: nat,
)
    requires
        round_trips(Value::Mapping(entries), depth),
        holds_at(
            bytes,
            pos,
            array_header(entries.len() as u32) + entries_encoding(entries, entries.len()),
        ),
    ensures
        encodable(Value::Mapping(entries)),
        decode_value(bytes, pos, true, depth) == Ok::<(Value, int), DecodeError>(
            (
                normalized(Value::Mapping(entries)),
                pos + array_header(entries.len() as u32).len() + entries_encoding(
                    entries,
                    entries.len(),
                ).len(),
            ),
        ),
    decreases entries, entries.len() + 1,
{
    let v = Value::Mapping(entries);
    let n = entries.len();
    let header = array_header(n as u32);
    let inner = (depth - 1) as nat;
    let body = pos + header.len();
    lemma_holds_at_split(bytes, pos, header, entries_encoding(entries, n));
    lemma_array_header_reads(bytes, pos, n as u32, true, depth);
    lemma_entries_split(entries, 0);
    assert(entries_encoding(entries, 0) + entries_tail(entries, 0) =~= entries_tail(entries, 0));
    lemma_entries_read_back(bytes, body, entries, 0, inner);
    assert(normalized_entries(entries).subrange(0, n as int) =~= normalized(v)->Mapping_0);
    assert(decode_array(bytes, body, n, true, inner) == decode_map(bytes, body, n, inner));
}

proof fn lemma_descriptor_reads_back(
    bytes: Seq<u8>,
    pos: int,
    acronym: Seq<char>,
    entries: Seq<(Value, Value)>,
    depth: nat,
)
    requires
        round_trips(
            Value::ModDescriptor { acronym, settings: Box::new(Value::Mapping(entries)) },
            depth,
        ),
        holds_at(
            bytes,
            pos,
            encoding(Value::ModDescriptor { acronym, settings: Box::new(Value::Mapping(entries)) }),
        ),
    ensures
        encodable(Value::ModDescriptor { acronym, settings: Box::new(Value::Mapping(entries)) }),
        decode_value(bytes, pos, false, depth) == Ok::<(Value, int), DecodeError>(
            (
                normalized(
                    Value::ModDescriptor { acronym, settings: Box::new(Value::Mapping(entries)) },
                ),
                pos + encoding(
                    Value::ModDescriptor { acronym, settings: Box::new(Value::Mapping(entries)) },
                ).len(),
            ),
        ),
    decreases entries, entries.len() + 2,
{
    let settings = Value::Mapping(entries);
    let n = entries.len();
    let outer = array_header(2);
    let name = str_encoding(acronym);
    let tail = array_header(n as u32) + entries_encoding(entries, n);
    let inner = (depth - 1) as nat;
    let name_pos = pos + outer.len();
    let settings_pos = name_pos + name.len();
    let end = settings_pos + tail.len();
    assert(encoding(
        Value::ModDescriptor { acronym, settings: Box::new(Value::Mapping(entries)) },
    ) =~= outer + (name + tail));
    lemma_holds_at_split(bytes, pos, outer, name + tail);
    lemma_holds_at_split(bytes, name_pos, name, tail);
    lemma_array_header_reads(bytes, pos, 2, false, depth);
    lemma_str_reads_back(bytes, name_pos, acronym, false, inner);
    lemma_settings_read_back(bytes, settings_pos, entries, inner);
    assert(looks_like_mod_descriptor(Value::Str(acronym)));
    assert(decode_array(bytes, name_pos, 2, false, inner) == Ok::<(Value, int), DecodeError>(
        (Value::ModDescriptor { acronym, settings: Box::new(normalized(settings)) }, end),
    ));
}

/// Where a buffer holds the encoding of a value that [`round_trips`],
/// reading a value there gives that value, [`normalized`], and ends right
/// after the encoding.
pub proof fn lemma_reads_back(bytes: Seq<u8>, pos: int, v: Value, depth: nat)
    requires
        round_trips(v, depth),
        holds_at(bytes, pos, encoding(v)),
    ensures
        encodable(v),
        decode_value(bytes, pos, false, depth) == Ok::<(Value, int), DecodeError>(
            (normalized(v), pos + encoding(v).len()),
        ),
    decreases v, 0nat,
{
    match v {
        Value::Nil => {
            lemma_holds_at_byte(bytes, pos, encoding(v), 0);
        },
        Value::Bool(b) => {
            lemma_holds_at_byte(bytes, pos, encoding(v), 0);
        },
        Value::Float32(_) => {
            lemma_float_reads_back(bytes, pos, v, false, depth);
        },
        Value::Float64(_) => {
            lemma_float_reads_back(bytes, pos, v, false, depth);
        },
        Value::Binary(data) => {
            lemma_bin_reads_back(bytes, pos, data, false, depth);
        },
        Value::Str(text) => {
            lemma_str_reads_back(bytes, pos, text, false, depth);
        },
        Value::Timestamp { seconds, nanoseconds } => {
            lemma_timestamp_reads_back(bytes, pos, seconds, nanoseconds, false, depth);
        },
        Value::Array(items) => {
            lemma_array_reads_back(bytes, pos, items, depth);
        },
        Value::Mapping(entries) => {
            lemma_mapping_reads_back(bytes, pos, entries, depth);
        },
        Value::ModDescriptor { acronym, settings } => {
            lemma_descriptor_reads_back(bytes, pos, acronym, settings->Mapping_0, depth);
        },
        _ => {
            lemma_integer_reads_back(bytes, pos, integer_of(v).unwrap(), false, depth);
        },
    }
}

/// Round trip: a value that [`round_trips`] has an encoding, and decoding
/// that encoding, whatever bytes follow it, gives the value back, the same
/// but for the widths of its integers.
pub proof fn lemma_round_trip(v: Value, rest: Seq<u8>, depth: nat)
    requires
        round_trips(v, depth),
    ensures
        encodable(v),
        decoded(encoding(v) + rest, depth) == Ok::<Value, DecodeError>(normalized(v)),
{
    lemma_holds_at_self(encoding(v) + rest);
    lemma_holds_at_split(encoding(v) + rest, 0, encoding(v), rest);
    lemma_reads_back(encoding(v) + rest, 0, v, depth);
}

/// What is read back holds the same numbers: normalising an integer keeps
/// its number, and leaves every value that is no container and no integer
/// as it is.
pub proof fn lemma_normalized_keeps_numbers(v: Value)
    requires
        encodable(v),
    ensures
        integer_of(v) is Some ==> integer_of(normalized(v)) == integer_of(v),
        integer_of(v) is None && !(v is Array) && !(v is Mapping) && !(v is ModDescriptor)
            ==> normalized(v) == v,
{
}

} // verus!
