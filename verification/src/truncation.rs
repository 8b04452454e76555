//! Reading from a buffer that was cut short: a cut after the value changes
//! nothing, and a cut inside it is reported as truncated input.

use crate::value::{DecodeError, Value};
use crate::wire::{
    decode_array, decode_bin, decode_entries, decode_ext, decode_items, decode_map,
    decode_number, decode_str, decode_value, decoded, is_number_marker, length_field,
    looks_like_mod_descriptor, Parsed,
};
use vstd::prelude::*;

verus! {

/// What a read that succeeded on the whole buffer does on the buffer cut
/// at `cut`, when it started at or before the cut: the same, where it
/// ended at or before the cut; it fails for truncated input, where it
/// ended after it.
pub open spec fn cut_agrees<T>(full: Parsed<T>, short: Parsed<T>, pos: int, cut: int) -> bool {
    full matches Ok((_, next)) ==> {
        &&& pos <= next
        &&& next <= cut ==> short == full
        &&& pos <= cut < next ==> short == Err::<(T, int), DecodeError>(
            DecodeError::TruncatedInput,
        )
    }
}

proof fn lemma_cut_subrange(bytes: Seq<u8>, cut: int, from: int, to: int)
    requires
        0 <= from <= to <= cut <= bytes.len(),
    ensures
        bytes.subrange(0, cut).subrange(from, to) == bytes.subrange(from, to),
{
    assert(bytes.subrange(0, cut).subrange(from, to) =~= bytes.subrange(from, to));
}

proof fn lemma_cut_length_field(bytes: Seq<u8>, cut: int, pos: int, m: u8)
    requires
        0 <= pos < cut <= bytes.len(),
        length_field(bytes, pos, m) is Ok,
    ensures
        cut_agrees(length_field(bytes, pos, m), length_field(bytes.subrange(0, cut), pos, m), pos, cut),
        length_field(bytes, pos, m).unwrap().1 <= bytes.len(),
        pos < length_field(bytes, pos, m).unwrap().1,
{
    let w = crate::wire::length_width(m);
    if w > 0 && pos + 1 + w <= cut {
        lemma_cut_subrange(bytes, cut, pos + 1, pos + 1 + w);
    }
}

proof fn lemma_cut_number(bytes: Seq<u8>, cut: int, pos: int, m: u8)
    requires
        0 <= pos <= cut <= bytes.len(),
        decode_number(bytes, pos, m) is Ok,
    ensures
        cut_agrees(decode_number(bytes, pos, m), decode_number(bytes.subrange(0, cut), pos, m), pos, cut),
        decode_number(bytes, pos, m).unwrap().1 <= bytes.len(),
        pos < decode_number(bytes, pos, m).unwrap().1,
{
    let w = crate::wire::number_width(m);
    if pos + w <= cut {
        lemma_cut_subrange(bytes, cut, pos, pos + w);
    }
}

proof fn lemma_cut_payload(bytes: Seq<u8>, cut: int, pos: int, len: nat)
    requires
        0 <= pos <= cut <= bytes.len(),
    ensures
        decode_str(bytes, pos, len) is Ok ==> cut_agrees(
            decode_str(bytes, pos, len),
            decode_str(bytes.subrange(0, cut), pos, len),
            pos,
            cut,
        ) && decode_str(bytes, pos, len).unwrap().1 <= bytes.len(),
        decode_bin(bytes, pos, len) is Ok ==> cut_agrees(
            decode_bin(bytes, pos, len),
            decode_bin(bytes.subrange(0, cut), pos, len),
            pos,
            cut,
        ) && decode_bin(bytes, pos, len).unwrap().1 <= bytes.len(),
        decode_ext(bytes, pos, len) is Ok ==> cut_agrees(
            decode_ext(bytes, pos, len),
            decode_ext(bytes.subrange(0, cut), pos, len),
            pos,
            cut,
        ) && decode_ext(bytes, pos, len).unwrap().1 <= bytes.len(),
{
    if pos + len <= cut {
        lemma_cut_subrange(bytes, cut, pos, pos + len);
    }
    if pos + 1 + len <= cut {
        lemma_cut_subrange(bytes, cut, pos + 1, pos + 1 + len);
    }
}

/// A value read from the whole buffer ends inside the buffer and after its
/// start. From the buffer cut at `cut` the same value is read where it ends
/// at or before the cut, and the read fails for truncated input where it
/// ends after it.
pub proof fn lemma_cut_value(
    bytes: Seq<u8>,
    cut: int,
    pos: int,
    pair_mode: bool,
    depth: nat,
)
    requires
        0 <= cut <= bytes.len(),
        decode_value(bytes, pos, pair_mode, depth) is Ok,
    ensures
        pos < decode_value(bytes, pos, pair_mode, depth).unwrap().1 <= bytes.len(),
        decode_value(bytes, pos, pair_mode, depth).unwrap().1 <= cut ==> decode_value(
            bytes.subrange(0, cut),
            pos,
            pair_mode,
            depth,
        ) == decode_value(bytes, pos, pair_mode, depth),
        cut < decode_value(bytes, pos, pair_mode, depth).unwrap().1 ==> decode_value(
            bytes.subrange(0, cut),
            pos,
            pair_mode,
            depth,
        ) == Err::<(Value, int), DecodeError>(DecodeError::TruncatedInput),
    decreases depth, 1nat, 0nat,
{
    let short = bytes.subrange(0, cut);
    let whole = bytes.len() as int;
    let m = bytes[pos];
    let inner = (depth - 1) as nat;
    if pos < cut {
        assert(short[pos] == m);
    }
    if m <= 0x7f || m >= 0xe0 || m == 0xc0 || m == 0xc2 || m == 0xc3 {
    } else if is_number_marker(m) {
        lemma_cut_number(bytes, whole, pos + 1, m);
        if pos < cut {
            lemma_cut_number(bytes, cut, pos + 1, m);
        }
    } else {
        lemma_cut_length_field(bytes, whole, pos, m);
        let (len, body) = length_field(bytes, pos, m).unwrap();
        let payload = crate::wire::is_str_marker(m) || crate::wire::is_bin_marker(m)
            || crate::wire::is_ext_marker(m);
        lemma_cut_payload(bytes, whole, body, len);
        if !payload {
            if crate::wire::is_array_marker(m) {
                lemma_cut_array(bytes, whole, body, len, pair_mode, inner);
            } else {
                lemma_cut_map(bytes, whole, body, len, inner);
            }
        }
        if pos < cut {
            lemma_cut_length_field(bytes, cut, pos, m);
            if body <= cut {
                assert(length_field(short, pos, m) == length_field(bytes, pos, m));
                lemma_cut_payload(bytes, cut, body, len);
                if !payload {
                    if crate::wire::is_array_marker(m) {
                        lemma_cut_array(bytes, cut, body, len, pair_mode, inner);
                    } else {
                        lemma_cut_map(bytes, cut, body, len, inner);
                    }
                }
            } else {
                assert(length_field(short, pos, m) == Err::<(nat, int), DecodeError>(
                    DecodeError::TruncatedInput,
                ));
            }
        }
    }
}

proof fn lemma_cut_array(
    bytes: Seq<u8>,
    cut: int,
    pos: int,
    len: nat,
    pair_mode: bool,
    depth: nat,
)
    requires
        0 <= pos <= cut <= bytes.len(),
        decode_array(bytes, pos, len, pair_mode, depth) is Ok,
    ensures
        cut_agrees(
            decode_array(bytes, pos, len, pair_mode, depth),
            decode_array(bytes.subrange(0, cut), pos, len, pair_mode, depth),
            pos,
            cut,
        ),
        decode_array(bytes, pos, len, pair_mode, depth).unwrap().1 <= bytes.len(),
    decreases depth, 4nat, 0nat,
{
    let short = bytes.subrange(0, cut);
    if pair_mode {
        lemma_cut_map(bytes, cut, pos, len, depth);
    } else {
        let head = decode_value(bytes, pos, false, depth);
        if len == 2 {
            assert(head is Ok) by {
                if head is Err {
                    assert(decode_items(bytes, pos, len, depth) is Err);
                }
            }
            lemma_cut_value(bytes, cut, pos, false, depth);
            let (first, second_pos) = head.unwrap();
            if looks_like_mod_descriptor(first) {
                lemma_cut_value(bytes, cut, second_pos, true, depth);
                if second_pos > cut {
                    assert(decode_items(short, pos, len, depth) == Err::<
                        (Seq<Value>, int),
                        DecodeError,
                    >(DecodeError::TruncatedInput));
                }
            } else {
                lemma_cut_items(bytes, cut, pos, len, depth);
            }
        } else {
            lemma_cut_items(bytes, cut, pos, len, depth);
        }
    }
}

proof fn lemma_cut_map(bytes: Seq<u8>, cut: int, pos: int, len: nat, depth: nat)
    requires
        0 <= pos <= cut <= bytes.len(),
        decode_map(bytes, pos, len, depth) is Ok,
    ensures
        cut_agrees(
            decode_map(bytes, pos, len, depth),
            decode_map(bytes.subrange(0, cut), pos, len, depth),
            pos,
            cut,
        ),
        decode_map(bytes, pos, len, depth).unwrap().1 <= bytes.len(),
    decreases depth, 3nat, 0nat,
{
    lemma_cut_entries(bytes, cut, pos, len, depth);
}

proof fn lemma_cut_items(bytes: Seq<u8>, cut: int, pos: int, count: nat, depth: nat)
    requires
        0 <= pos <= cut <= bytes.len(),
        decode_items(bytes, pos, count, depth) is Ok,
    ensures
        cut_agrees(
            decode_items(bytes, pos, count, depth),
            decode_items(bytes.subrange(0, cut), pos, count, depth),
            pos,
            cut,
        ),
        decode_items(bytes, pos, count, depth).unwrap().1 <= bytes.len(),
        decode_items(bytes, pos, count, depth).unwrap().0.len() == count,
    decreases depth, 2nat, count,
{
    if count > 0 {
        lemma_cut_value(bytes, cut, pos, false, depth);
        let (first, next) = decode_value(bytes, pos, false, depth).unwrap();
        if next <= cut {
            lemma_cut_items(bytes, cut, next, (count - 1) as nat, depth);
        } else {
            lemma_cut_items(bytes, next, next, (count - 1) as nat, depth);
        }
    }
}

proof fn lemma_cut_entries(bytes: Seq<u8>, cut: int, pos: int, count: nat, depth: nat)
    requires
        0 <= pos <= cut <= bytes.len(),
        decode_entries(bytes, pos, count, depth) is Ok,
    ensures
        cut_agrees(
            decode_entries(bytes, pos, count, depth),
            decode_entries(bytes.subrange(0, cut), pos, count, depth),
            pos,
            cut,
        ),
        decode_entries(bytes, pos, count, depth).unwrap().1 <= bytes.len(),
        decode_entries(bytes, pos, count, depth).unwrap().0.len() == count,
    decreases depth, 2nat, count,
{
    if count > 0 {
        lemma_cut_value(bytes, cut, pos, false, depth);
        let (key, value_pos) = decode_value(bytes, pos, false, depth).unwrap();
        lemma_cut_value(bytes, cut, value_pos, false, depth);
        let (value, next) = decode_value(bytes, value_pos, false, depth).unwrap();
        if next <= cut {
            lemma_cut_entries(bytes, cut, next, (count - 1) as nat, depth);
        } else {
            lemma_cut_entries(bytes, next, next, (count - 1) as nat, depth);
        }
    }
}

/// Truncation: a buffer cut anywhere before the end of the value that the
/// whole buffer decodes to is refused as truncated input.
pub proof fn lemma_truncated_input(bytes: Seq<u8>, cut: int, depth: nat)
    requires
        0 <= cut <= bytes.len(),
        decode_value(bytes, 0, false, depth) matches Ok((_, end)) && cut < end,
    ensures
        decoded(bytes.subrange(0, cut), depth) == Err::<Value, DecodeError>(
            DecodeError::TruncatedInput,
        ),
{
    lemma_cut_value(bytes, cut, 0, false, depth);
}

/// Trailing bytes are not looked at: a buffer cut anywhere at or after the
/// end of the value that the whole buffer decodes to decodes to the same
/// value.
pub proof fn lemma_trailing_bytes_ignored(bytes: Seq<u8>, cut: int, depth: nat)
    requires
        0 <= cut <= bytes.len(),
        decode_value(bytes, 0, false, depth) matches Ok((_, end)) && end <= cut,
    ensures
        decoded(bytes.subrange(0, cut), depth) == decoded(bytes, depth),
{
    lemma_cut_value(bytes, cut, 0, false, depth);
}

} // verus!
