//! What the decoder makes of bytes that the rules of the format leave to
//! its judgement: an array of two that starts like a mod descriptor, and
//! a string payload that is no UTF-8.

use crate::framing::{
    lemma_array_header_reads, lemma_holds_at_self, lemma_holds_at_split, lemma_str_header_reads,
};
use crate::roundtrip::lemma_str_reads_back;
use crate::value::{DecodeError, Value};
use crate::wire::{
    array_header, decode_array, decode_items, decode_value, decoded, encoding, items_encoding,
    looks_like_mod_descriptor, str_encoding, str_header,
};
use vstd::prelude::*;
use vstd::utf8::{encode_utf8, length_of_first_scalar, pop_first_scalar, valid_utf8};

verus! {

proof fn lemma_items_count(bytes: Seq<u8>, pos: int, count: nat, depth: nat)
    ensures
        decode_items(bytes, pos, count, depth) matches Ok((items, _)) ==> items.len() == count,
    decreases count,
{
    if count > 0 {
        if let Ok((_, next)) = decode_value(bytes, pos, false, depth) {
            lemma_items_count(bytes, next, (count - 1) as nat, depth);
        }
    }
}

/// No read gives an array of two that starts with a string of two bytes:
/// such an array, had it been written, is read as a mod descriptor or not
/// at all.
pub proof fn lemma_no_array_looks_like_descriptor(
    bytes: Seq<u8>,
    pos: int,
    pair_mode: bool,
    depth: nat,
)
    ensures
        decode_value(bytes, pos, pair_mode, depth) matches Ok((Value::Array(items), _)) ==> !(
        items.len() == 2 && looks_like_mod_descriptor(items[0])),
{
    if let Ok((Value::Array(items), _)) = decode_value(bytes, pos, pair_mode, depth) {
        let m = bytes[pos];
        let (len, body) = crate::wire::length_field(bytes, pos, m).unwrap();
        let inner = (depth - 1) as nat;
        assert(decode_value(bytes, pos, pair_mode, depth) == decode_array(
            bytes,
            body,
            len,
            pair_mode,
            inner,
        ));
        lemma_items_count(bytes, body, len, inner);
        if len == 2 {
            let (first, next) = decode_value(bytes, body, false, inner).unwrap();
            let rest = decode_items(bytes, next, 1, inner).unwrap().0;
            assert(items == seq![first] + rest);
            assert(items[0] == first);
        }
    }
}

/// Known ambiguity: the encoding of an array of two that starts with a
/// string of two bytes is never read as that array. Where it is read at
/// all, it is read as a mod descriptor with that string as its acronym.
pub proof fn lemma_pair_reads_as_descriptor(
    text: Seq<char>,
    second: Value,
    rest: Seq<u8>,
    depth: nat,
)
    requires
        encode_utf8(text).len() == 2,
    ensures
        decoded(encoding(Value::Array(seq![Value::Str(text), second])) + rest, depth) matches Ok(
            got,
        ) ==> got is ModDescriptor && got->acronym == text,
{
    let items = seq![Value::Str(text), second];
    let bytes = encoding(Value::Array(items)) + rest;
    let header = array_header(2);
    let name = str_encoding(text);
    reveal_with_fuel(items_encoding, 3);
    assert(items_encoding(items, 2) =~= name + encoding(second));
    assert(bytes =~= header + (name + (encoding(second) + rest)));
    lemma_holds_at_self(bytes);
    lemma_holds_at_split(bytes, 0, header, name + (encoding(second) + rest));
    lemma_holds_at_split(bytes, 1, name, encoding(second) + rest);
    lemma_array_header_reads(bytes, 0, 2, false, depth);
    if depth > 0 {
        lemma_str_reads_back(bytes, 1, text, false, (depth - 1) as nat);
        assert(looks_like_mod_descriptor(Value::Str(text)));
    }
}

/// A byte sequence that holds the byte `0xFF` is no UTF-8.
pub proof fn lemma_ff_is_not_utf8(bytes: Seq<u8>, i: int)
    requires
        0 <= i < bytes.len(),
        bytes[i] == 0xff,
    ensures
        !valid_utf8(bytes),
    decreases bytes.len(),
{
    if valid_utf8(bytes) {
        let k = length_of_first_scalar(bytes);
        assert(1 <= k <= 4 && k <= bytes.len());
        assert(i >= k);
        let tail = pop_first_scalar(bytes);
        assert(tail[i - k] == 0xff);
        lemma_ff_is_not_utf8(tail, i - k);
    }
}

/// Invalid UTF-8: a string whose payload holds the byte `0xFF` is refused
/// as an invalid encoding, whatever its length and whatever follows it.
pub proof fn lemma_invalid_utf8_refused(payload: Seq<u8>, i: int, rest: Seq<u8>, depth: nat)
    requires
        payload.len() <= u32::MAX,
        0 <= i < payload.len(),
        payload[i] == 0xff,
    ensures
        decoded(str_header(payload.len() as u32) + payload + rest, depth) == Err::<
            Value,
            DecodeError,
        >(DecodeError::InvalidEncoding),
{
    let header = str_header(payload.len() as u32);
    let bytes = header + payload + rest;
    lemma_ff_is_not_utf8(payload, i);
    assert(bytes =~= header + (payload + rest));
    lemma_holds_at_self(bytes);
    lemma_holds_at_split(bytes, 0, header, payload + rest);
    lemma_holds_at_split(bytes, header.len() as int, payload, rest);
    lemma_str_header_reads(bytes, 0, payload.len() as u32, false, depth);
}

/// That every mod descriptor in a value has an acronym of two bytes.
pub open spec fn acronyms_are_two_bytes(v: Value) -> bool
    decreases v,
{
    match v {
        Value::Array(items) => forall|i: int|
            0 <= i < items.len() ==> acronyms_are_two_bytes(#[trigger] items[i]),
        Value::Mapping(entries) => forall|i: int|
            0 <= i < entries.len() ==> acronyms_are_two_bytes((#[trigger] entries[i]).0)
                && acronyms_are_two_bytes(entries[i].1),
        Value::ModDescriptor { acronym, settings } => encode_utf8(acronym).len() == 2
            && acronyms_are_two_bytes(*settings),
        _ => true,
    }
}

/// Every mod descriptor that the decoder makes has an acronym of two bytes,
/// however deep in the value it stands.
pub proof fn lemma_decoded_acronyms(bytes: Seq<u8>, pos: int, pair_mode: bool, depth: nat)
    ensures
        decode_value(bytes, pos, pair_mode, depth) matches Ok((v, _)) ==> acronyms_are_two_bytes(
            v,
        ),
    decreases depth, 1nat, 0nat,
{
    if let Ok((v, _)) = decode_value(bytes, pos, pair_mode, depth) {
        let m = bytes[pos];
        if crate::wire::is_array_marker(m) || crate::wire::is_map_marker(m) {
            let (len, body) = crate::wire::length_field(bytes, pos, m).unwrap();
            let inner = (depth - 1) as nat;
            if crate::wire::is_array_marker(m) {
                lemma_array_acronyms(bytes, body, len, pair_mode, inner);
            } else {
                lemma_entries_acronyms(bytes, body, len, inner);
            }
        }
    }
}

proof fn lemma_array_acronyms(bytes: Seq<u8>, pos: int, len: nat, pair_mode: bool, depth: nat)
    ensures
        decode_array(bytes, pos, len, pair_mode, depth) matches Ok((v, _))
            ==> acronyms_are_two_bytes(v),
    decreases depth, 4nat, 0nat,
{
    if pair_mode {
        lemma_entries_acronyms(bytes, pos, len, depth);
    } else {
        lemma_items_acronyms(bytes, pos, len, depth);
        lemma_decoded_acronyms(bytes, pos, false, depth);
        if let Ok((_, next)) = decode_value(bytes, pos, false, depth) {
            lemma_decoded_acronyms(bytes, next, true, depth);
        }
    }
}

proof fn lemma_items_acronyms(bytes: Seq<u8>, pos: int, count: nat, depth: nat)
    ensures
        decode_items(bytes, pos, count, depth) matches Ok((items, _)) ==> forall|i: int|
            0 <= i < items.len() ==> acronyms_are_two_bytes(#[trigger] items[i]),
    decreases depth, 2nat, count,
{
    if count > 0 {
        lemma_decoded_acronyms(bytes, pos, false, depth);
        if let Ok((_, next)) = decode_value(bytes, pos, false, depth) {
            lemma_items_acronyms(bytes, next, (count - 1) as nat, depth);
        }
    }
}

proof fn lemma_entries_acronyms(bytes: Seq<u8>, pos: int, count: nat, depth: nat)
    ensures
        crate::wire::decode_entries(bytes, pos, count, depth) matches Ok((entries, _))
            ==> forall|i: int|
            0 <= i < entries.len() ==> acronyms_are_two_bytes((#[trigger] entries[i]).0)
                && acronyms_are_two_bytes(entries[i].1),
    decreases depth, 2nat, count,
{
    if count > 0 {
        lemma_decoded_acronyms(bytes, pos, false, depth);
        if let Ok((_, value_pos)) = decode_value(bytes, pos, false, depth) {
            lemma_decoded_acronyms(bytes, value_pos, false, depth);
            if let Ok((_, next)) = decode_value(bytes, value_pos, false, depth) {
                lemma_entries_acronyms(bytes, next, (count - 1) as nat, depth);
            }
        }
    }
}

} // verus!
