//! Calls into `rmp`, `chrono` and `std` whose contracts are taken on trust.
//!
//! Every function here only makes its call; what the call is claimed to do
//! is said in the contract and in the comment above it.

use crate::endian::{be32, be64, wrap32, wrap64, wrap8};
use crate::wire::{array_header, bin_header, ext_header, map_header, str_header};
use chrono::{TimeZone, Utc};
use vstd::prelude::*;
use vstd::utf8::{encode_utf8, valid_utf8};

verus! {

/// Whether `chrono` has an absolute UTC instant for these seconds and
/// nanoseconds since the epoch: the outcome of `Utc.timestamp_opt`.
pub uninterp spec fn utc_instant_exists(seconds: i64, nanoseconds: u32) -> bool;

/// `chrono::TimeZone::timestamp_opt` on `Utc`: says whether it made an
/// instant. For `Utc` that depends on the two numbers alone, which is all
/// that the contract claims.
#[verifier::external_body]
pub(crate) fn is_utc_instant(seconds: i64, nanoseconds: u32) -> (r: bool)
    ensures
        r == utc_instant_exists(seconds, nanoseconds),
{
    Utc.timestamp_opt(seconds, nanoseconds).single().is_some()
}

/// `rmp::decode::read_marker` on the bytes from `pos` on, the marker handed
/// back as its byte by `rmp::Marker::to_u8`. It reads one byte and fails
/// only where none is left; a marker's byte is the byte it was made from.
#[verifier::external_body]
pub(crate) fn marker_at(data: &[u8], pos: usize) -> (r: Option<u8>)
    requires
        pos <= data@.len(),
    ensures
        r == (if pos < data@.len() {
            Some(data@[pos as int])
        } else {
            None::<u8>
        }),
{
    let mut rest: &[u8] = &data[pos..];
    match rmp::decode::read_marker(&mut rest) {
        Ok(marker) => Some(marker.to_u8()),
        Err(_) => None,
    }
}

/// `String::from_utf8`: succeeds on exactly the valid UTF-8 byte sequences,
/// and the string it makes consists of the bytes it was given.
#[verifier::external_body]
pub(crate) fn string_from_utf8(bytes: Vec<u8>) -> (r: Option<String>)
    ensures
        r is Some <==> valid_utf8(bytes@),
        r matches Some(text) ==> encode_utf8(text@) == bytes@,
{
    match String::from_utf8(bytes) {
        Ok(text) => Some(text),
        Err(_) => None,
    }
}

/// `rmp::encode::write_nil`: appends the nil marker.
#[verifier::external_body]
pub(crate) fn write_nil_marker(buf: &mut Vec<u8>)
    ensures
        final(buf)@ == old(buf)@ + seq![0xc0u8],
{
    let _ = rmp::encode::write_nil(buf);
}

/// `rmp::encode::write_bool`: appends the marker of `true` or of `false`.
#[verifier::external_body]
pub(crate) fn write_bool_marker(buf: &mut Vec<u8>, val: bool)
    ensures
        final(buf)@ == old(buf)@ + (if val {
            seq![0xc3u8]
        } else {
            seq![0xc2u8]
        }),
{
    let _ = rmp::encode::write_bool(buf, val);
}

/// `rmp::encode::write_pfix`: appends `val` itself as a one-byte marker. It
/// panics on 128 and above, which `requires` leaves out.
#[verifier::external_body]
pub(crate) fn write_pfix(buf: &mut Vec<u8>, val: u8)
    requires
        val < 0x80,
    ensures
        final(buf)@ == old(buf)@ + seq![val],
{
    let _ = rmp::encode::write_pfix(buf, val);
}

/// `rmp::encode::write_nfix`: appends the two's complement byte of `val` as
/// a one-byte marker. It panics outside -32..0, which `requires` leaves out.
#[verifier::external_body]
pub(crate) fn write_nfix(buf: &mut Vec<u8>, val: i8)
    requires
        -32 <= val < 0,
    ensures
        final(buf)@ == old(buf)@ + seq![wrap8(val)],
{
    let _ = rmp::encode::write_nfix(buf, val);
}

/// `rmp::encode::write_i32`: appends the marker `0xd2` and the four
/// big-endian bytes of `val`, whatever its size.
#[verifier::external_body]
pub(crate) fn write_i32(buf: &mut Vec<u8>, val: i32)
    ensures
        final(buf)@ == old(buf)@ + seq![0xd2u8] + be32(wrap32(val)),
{
    let _ = rmp::encode::write_i32(buf, val);
}

/// `rmp::encode::write_i64`: appends the marker `0xd3` and the eight
/// big-endian bytes of `val`, whatever its size.
#[verifier::external_body]
pub(crate) fn write_i64(buf: &mut Vec<u8>, val: i64)
    ensures
        final(buf)@ == old(buf)@ + seq![0xd3u8] + be64(wrap64(val)),
{
    let _ = rmp::encode::write_i64(buf, val);
}

/// `rmp::encode::write_str`: appends the shortest string header for the
/// byte length of `text`, then its bytes. It casts the length to 32 bits
/// unchecked, so `requires` keeps it within them.
#[verifier::external_body]
pub(crate) fn write_str(buf: &mut Vec<u8>, text: &str)
    requires
        encode_utf8(text@).len() <= u32::MAX,
    ensures
        final(buf)@ == old(buf)@ + str_header(encode_utf8(text@).len() as u32) + encode_utf8(
            text@,
        ),
{
    let _ = rmp::encode::write_str(buf, text);
}

/// `rmp::encode::write_bin`: appends the shortest binary header for the
/// length of `data`, then `data`. It casts the length to 32 bits unchecked,
/// so `requires` keeps it within them.
#[verifier::external_body]
pub(crate) fn write_bin(buf: &mut Vec<u8>, data: &[u8])
    requires
        data@.len() <= u32::MAX,
    ensures
        final(buf)@ == old(buf)@ + bin_header(data@.len() as u32) + data@,
{
    let _ = rmp::encode::write_bin(buf, data);
}

/// `rmp::encode::write_array_len`: appends the shortest array header that
/// announces `len`.
#[verifier::external_body]
pub(crate) fn write_array_len(buf: &mut Vec<u8>, len: u32)
    ensures
        final(buf)@ == old(buf)@ + array_header(len),
{
    let _ = rmp::encode::write_array_len(buf, len);
}

/// `rmp::encode::write_map_len`: appends the shortest map header that
/// announces `len`.
#[verifier::external_body]
pub(crate) fn write_map_len(buf: &mut Vec<u8>, len: u32)
    ensures
        final(buf)@ == old(buf)@ + map_header(len),
{
    let _ = rmp::encode::write_map_len(buf, len);
}

/// `rmp::encode::write_ext_meta`: appends the extension marker for `len`
/// (one of the five fixed ones where there is one, else the shortest with a
/// length field) and the type tag as one byte. Its documentation speaks of a
/// panic on a negative tag; its code has none and writes the tag's byte.
#[verifier::external_body]
pub(crate) fn write_ext_meta(buf: &mut Vec<u8>, len: u32, tag: i8)
    ensures
        final(buf)@ == old(buf)@ + ext_header(len, tag),
{
    let _ = rmp::encode::write_ext_meta(buf, len, tag);
}

} // verus!
