//! How the headers that the encoder writes are read back: the first step
//! of every statement about decoding what was encoded.

use crate::endian::{be16, be32, lemma_be16_round_trip, lemma_be32_round_trip};
use crate::value::DecodeError;
use crate::wire::{
    array_header, bin_header, decode_array, decode_bin, decode_ext, decode_map, decode_str,
    decode_value, ext_header, length_field, map_header, str_header,
};
use vstd::prelude::*;

verus! {

/// That `bytes` holds `chunk` from `pos` on.
pub open spec fn holds_at(bytes: Seq<u8>, pos: int, chunk: Seq<u8>) -> bool {
    &&& 0 <= pos
    &&& pos + chunk.len() <= bytes.len()
    &&& bytes.subrange(pos, pos + chunk.len()) == chunk
}

/// A buffer that holds a chunk holds each of its bytes.
pub proof fn lemma_holds_at_byte(bytes: Seq<u8>, pos: int, chunk: Seq<u8>, k: int)
    requires
        holds_at(bytes, pos, chunk),
        0 <= k < chunk.len(),
    ensures
        bytes[pos + k] == chunk[k],
{
    assert(bytes.subrange(pos, pos + chunk.len())[k] == bytes[pos + k]);
}

/// A buffer that holds two chunks joined holds the first, and the second
/// right after it.
pub proof fn lemma_holds_at_split(bytes: Seq<u8>, pos: int, a: Seq<u8>, b: Seq<u8>)
    requires
        holds_at(bytes, pos, a + b),
    ensures
        holds_at(bytes, pos, a),
        holds_at(bytes, pos + a.len(), b),
{
    let whole = bytes.subrange(pos, pos + (a + b).len());
    assert(bytes.subrange(pos, pos + a.len()) =~= a) by {
        assert forall|k: int| 0 <= k < a.len() implies bytes.subrange(pos, pos + a.len())[k]
            == a[k] by {
            assert(whole[k] == bytes[pos + k]);
            assert((a + b)[k] == a[k]);
        }
    }
    assert(bytes.subrange(pos + a.len(), pos + a.len() + b.len()) =~= b) by {
        assert forall|k: int| 0 <= k < b.len() implies bytes.subrange(
            pos + a.len(),
            pos + a.len() + b.len(),
        )[k] == b[k] by {
            assert(whole[a.len() + k] == bytes[pos + a.len() + k]);
            assert((a + b)[a.len() + k] == b[k]);
        }
    }
}

/// A buffer that holds a chunk holds, at its own start, the chunk alone
/// when it is that long.
pub proof fn lemma_holds_at_self(chunk: Seq<u8>)
    ensures
        holds_at(chunk, 0, chunk),
{
    assert(chunk.subrange(0, chunk.len() as int) =~= chunk);
}

/// The length field of a header that was written with a 16-bit or 32-bit
/// length, read back.
proof fn lemma_wide_length_field(bytes: Seq<u8>, pos: int, m: u8, len: u32)
    requires
        0 <= pos < bytes.len(),
        bytes[pos] == m,
        m == 0xc5 || m == 0xc8 || m == 0xda || m == 0xdc || m == 0xde || m == 0xc6 || m == 0xc9
            || m == 0xdb || m == 0xdd || m == 0xdf,
        crate::wire::length_width(m) == 2 ==> len < 0x1_0000 && holds_at(
            bytes,
            pos + 1,
            be16(len as u16),
        ),
        crate::wire::length_width(m) == 4 ==> holds_at(bytes, pos + 1, be32(len)),
    ensures
        length_field(bytes, pos, m) == Ok::<(nat, int), DecodeError>(
            (len as nat, pos + 1 + crate::wire::length_width(m)),
        ),
{
    lemma_be16_round_trip(len as u16);
    lemma_be32_round_trip(len);
}

/// Where a buffer holds an array header, a value read there is the array
/// body read after it, one level deeper.
pub proof fn lemma_array_header_reads(
    bytes: Seq<u8>,
    pos: int,
    len: u32,
    pair_mode: bool,
    depth: nat,
)
    requires
        holds_at(bytes, pos, array_header(len)),
    ensures
        decode_value(bytes, pos, pair_mode, depth) == (if depth == 0 {
            Err(DecodeError::DepthLimitExceeded)
        } else {
            decode_array(
                bytes,
                pos + array_header(len).len(),
                len as nat,
                pair_mode,
                (depth - 1) as nat,
            )
        }),
{
    lemma_holds_at_byte(bytes, pos, array_header(len), 0);
    if len < 16 {
    } else if len < 0x1_0000 {
        lemma_holds_at_split(bytes, pos, seq![0xdcu8], be16(len as u16));
        lemma_wide_length_field(bytes, pos, 0xdc, len);
    } else {
        lemma_holds_at_split(bytes, pos, seq![0xddu8], be32(len));
        lemma_wide_length_field(bytes, pos, 0xdd, len);
    }
}

/// Where a buffer holds a map header, a value read there is the map body
/// read after it, one level deeper.
pub proof fn lemma_map_header_reads(
    bytes: Seq<u8>,
    pos: int,
    len: u32,
    pair_mode: bool,
    depth: nat,
)
    requires
        holds_at(bytes, pos, map_header(len)),
    ensures
        decode_value(bytes, pos, pair_mode, depth) == (if depth == 0 {
            Err(DecodeError::DepthLimitExceeded)
        } else {
            decode_map(bytes, pos + map_header(len).len(), len as nat, (depth - 1) as nat)
        }),
{
    lemma_holds_at_byte(bytes, pos, map_header(len), 0);
    if len < 16 {
    } else if len < 0x1_0000 {
        lemma_holds_at_split(bytes, pos, seq![0xdeu8], be16(len as u16));
        lemma_wide_length_field(bytes, pos, 0xde, len);
    } else {
        lemma_holds_at_split(bytes, pos, seq![0xdfu8], be32(len));
        lemma_wide_length_field(bytes, pos, 0xdf, len);
    }
}

/// Where a buffer holds a string header, a value read there is the string
/// payload read after it.
pub proof fn lemma_str_header_reads(
    bytes: Seq<u8>,
    pos: int,
    len: u32,
    pair_mode: bool,
    depth: nat,
)
    requires
        holds_at(bytes, pos, str_header(len)),
    ensures
        decode_value(bytes, pos, pair_mode, depth) == decode_str(
            bytes,
            pos + str_header(len).len(),
            len as nat,
        ),
{
    lemma_holds_at_byte(bytes, pos, str_header(len), 0);
    if len < 32 {
    } else if len < 0x100 {
        lemma_holds_at_byte(bytes, pos, str_header(len), 1);
        assert(bytes.subrange(pos + 1, pos + 2)[0] == bytes[pos + 1]);
    } else if len < 0x1_0000 {
        lemma_holds_at_split(bytes, pos, seq![0xdau8], be16(len as u16));
        lemma_wide_length_field(bytes, pos, 0xda, len);
    } else {
        lemma_holds_at_split(bytes, pos, seq![0xdbu8], be32(len));
        lemma_wide_length_field(bytes, pos, 0xdb, len);
    }
}

/// Where a buffer holds a binary header, a value read there is the blob
/// read after it.
pub proof fn lemma_bin_header_reads(
    bytes: Seq<u8>,
    pos: int,
    len: u32,
    pair_mode: bool,
    depth: nat,
)
    requires
        holds_at(bytes, pos, bin_header(len)),
    ensures
        decode_value(bytes, pos, pair_mode, depth) == decode_bin(
            bytes,
            pos + bin_header(len).len(),
            len as nat,
        ),
{
    lemma_holds_at_byte(bytes, pos, bin_header(len), 0);
    if len < 0x100 {
        lemma_holds_at_byte(bytes, pos, bin_header(len), 1);
        assert(bytes.subrange(pos + 1, pos + 2)[0] == bytes[pos + 1]);
    } else if len < 0x1_0000 {
        lemma_holds_at_split(bytes, pos, seq![0xc5u8], be16(len as u16));
        lemma_wide_length_field(bytes, pos, 0xc5, len);
    } else {
        lemma_holds_at_split(bytes, pos, seq![0xc6u8], be32(len));
        lemma_wide_length_field(bytes, pos, 0xc6, len);
    }
}

/// Where a buffer holds an extension header, a value read there is the
/// extension read from the type tag on, which is the header's last byte.
pub proof fn lemma_ext_header_reads(
    bytes: Seq<u8>,
    pos: int,
    len: u32,
    tag: i8,
    pair_mode: bool,
    depth: nat,
)
    requires
        holds_at(bytes, pos, ext_header(len, tag)),
    ensures
        decode_value(bytes, pos, pair_mode, depth) == decode_ext(
            bytes,
            pos + ext_header(len, tag).len() - 1,
            len as nat,
        ),
        bytes[pos + ext_header(len, tag).len() - 1] == crate::endian::wrap8(tag),
{
    let header = ext_header(len, tag);
    let last = seq![crate::endian::wrap8(tag)];
    lemma_holds_at_byte(bytes, pos, header, 0);
    lemma_holds_at_byte(bytes, pos, header, header.len() - 1);
    if len == 1 || len == 2 || len == 4 || len == 8 || len == 16 {
    } else if len < 0x100 {
        lemma_holds_at_byte(bytes, pos, header, 1);
        assert(bytes.subrange(pos + 1, pos + 2)[0] == bytes[pos + 1]);
    } else if len < 0x1_0000 {
        assert(header =~= seq![0xc8u8] + (be16(len as u16) + last));
        lemma_holds_at_split(bytes, pos, seq![0xc8u8], be16(len as u16) + last);
        lemma_holds_at_split(bytes, pos + 1, be16(len as u16), last);
        lemma_wide_length_field(bytes, pos, 0xc8, len);
    } else {
        assert(header =~= seq![0xc9u8] + (be32(len) + last));
        lemma_holds_at_split(bytes, pos, seq![0xc9u8], be32(len) + last);
        lemma_holds_at_split(bytes, pos + 1, be32(len), last);
        lemma_wide_length_field(bytes, pos, 0xc9, len);
    }
}

} // verus!
