//! The MessagePack wire format: header sizes and the tag that each header
//! spells, as the reader decodes it.

use vstd::prelude::*;
use crate::common::{Tag, Timestamp};
use crate::endian::{be_bytes, be_value, pow256, signed_of};

verus! {

/// Total header size announced by a marker byte, the signed extension type
/// byte of ext headers included.
pub open spec fn header_size(m: u8) -> nat {
    if m == 0xc4 || m == 0xcc || m == 0xd0 || m == 0xd9 || (0xd4 <= m && m <= 0xd8) {
        2
    } else if m == 0xc5 || m == 0xc7 || m == 0xcd || m == 0xd1 || m == 0xda || m == 0xdc || m
        == 0xde {
        3
    } else if m == 0xc8 {
        4
    } else if m == 0xc6 || m == 0xca || m == 0xce || m == 0xd2 || m == 0xdb || m == 0xdd || m
        == 0xdf {
        5
    } else if m == 0xc9 {
        6
    } else if m == 0xcb || m == 0xcf || m == 0xd3 {
        9
    } else {
        1
    }
}

/// The big-endian field of `n` bytes at offset `off` of `s`.
pub open spec fn field(s: Seq<u8>, off: int, n: nat) -> nat {
    be_value(s.subrange(off, off + n))
}

/// The signed extension type byte `b`.
pub open spec fn ext_type_of(b: u8) -> i8 {
    signed_of(b as nat, 1) as i8
}

/// The tag that the complete header at the start of `s` spells
/// (the reserved marker 0xc1 spells none, and is left out here).
pub open spec fn decode_tag(s: Seq<u8>) -> Tag {
    let m = s[0];
    if m <= 0x7f {
        Tag::Uint(m as u64)
    } else if m <= 0x8f {
        Tag::Mapping((m - 0x80) as u32)
    } else if m <= 0x9f {
        Tag::Array((m - 0x90) as u32)
    } else if m <= 0xbf {
        Tag::Str((m - 0xa0) as u32)
    } else if m == 0xc0 {
        Tag::Nil
    } else if m == 0xc2 {
        Tag::Bool(false)
    } else if m == 0xc3 {
        Tag::Bool(true)
    } else if m == 0xc4 {
        Tag::Bin(field(s, 1, 1) as u32)
    } else if m == 0xc5 {
        Tag::Bin(field(s, 1, 2) as u32)
    } else if m == 0xc6 {
        Tag::Bin(field(s, 1, 4) as u32)
    } else if m == 0xc7 {
        Tag::Ext { extension_type: ext_type_of(s[2]), length: field(s, 1, 1) as u32 }
    } else if m == 0xc8 {
        Tag::Ext { extension_type: ext_type_of(s[3]), length: field(s, 1, 2) as u32 }
    } else if m == 0xc9 {
        Tag::Ext { extension_type: ext_type_of(s[5]), length: field(s, 1, 4) as u32 }
    } else if m == 0xca {
        Tag::Float(field(s, 1, 4) as u32)
    } else if m == 0xcb {
        Tag::Double(field(s, 1, 8) as u64)
    } else if m == 0xcc {
        Tag::Uint(field(s, 1, 1) as u64)
    } else if m == 0xcd {
        Tag::Uint(field(s, 1, 2) as u64)
    } else if m == 0xce {
        Tag::Uint(field(s, 1, 4) as u64)
    } else if m == 0xcf {
        Tag::Uint(field(s, 1, 8) as u64)
    } else if m == 0xd0 {
        Tag::Int(signed_of(field(s, 1, 1), 1) as i64)
    } else if m == 0xd1 {
        Tag::Int(signed_of(field(s, 1, 2), 2) as i64)
    } else if m == 0xd2 {
        Tag::Int(signed_of(field(s, 1, 4), 4) as i64)
    } else if m == 0xd3 {
        Tag::Int(signed_of(field(s, 1, 8), 8) as i64)
    } else if m == 0xd4 {
        Tag::Ext { extension_type: ext_type_of(s[1]), length: 1 }
    } else if m == 0xd5 {
        Tag::Ext { extension_type: ext_type_of(s[1]), length: 2 }
    } else if m == 0xd6 {
        Tag::Ext { extension_type: ext_type_of(s[1]), length: 4 }
    } else if m == 0xd7 {
        Tag::Ext { extension_type: ext_type_of(s[1]), length: 8 }
    } else if m == 0xd8 {
        Tag::Ext { extension_type: ext_type_of(s[1]), length: 16 }
    } else if m == 0xd9 {
        Tag::Str(field(s, 1, 1) as u32)
    } else if m == 0xda {
        Tag::Str(field(s, 1, 2) as u32)
    } else if m == 0xdb {
        Tag::Str(field(s, 1, 4) as u32)
    } else if m == 0xdc {
        Tag::Array(field(s, 1, 2) as u32)
    } else if m == 0xdd {
        Tag::Array(field(s, 1, 4) as u32)
    } else if m == 0xde {
        Tag::Mapping(field(s, 1, 2) as u32)
    } else if m == 0xdf {
        Tag::Mapping(field(s, 1, 4) as u32)
    } else {
        Tag::Int((m as int - 256) as i64)
    }
}

/// The timestamp that a 4, 8 or 12 byte timestamp payload spells.
pub open spec fn timestamp_of(p: Seq<u8>) -> Timestamp {
    if p.len() == 4 {
        Timestamp { seconds: be_value(p) as i64, nanoseconds: 0 }
    } else if p.len() == 8 {
        Timestamp {
            seconds: (be_value(p) % 0x4_0000_0000) as i64,
            nanoseconds: (be_value(p) / 0x4_0000_0000) as u32,
        }
    } else {
        Timestamp {
            seconds: signed_of(field(p, 4, 8), 8) as i64,
            nanoseconds: field(p, 0, 4) as u32,
        }
    }
}

/// Two's-complement bits of a signed value in `n` bytes.
pub open spec fn twos(v: int, n: nat) -> nat {
    if v < 0 {
        (v + pow256(n)) as nat
    } else {
        v as nat
    }
}

/// The signed extension type byte as it is written.
pub open spec fn ext_type_byte(t: i8) -> u8 {
    twos(t as int, 1) as u8
}

/// Smallest encoding of an unsigned integer.
pub open spec fn uint_header(v: u64) -> Seq<u8> {
    if v <= 0x7f {
        seq![v as u8]
    } else if v <= 0xff {
        seq![0xccu8, v as u8]
    } else if v <= 0xffff {
        seq![0xcdu8] + be_bytes(v as nat, 2)
    } else if v <= 0xffff_ffff {
        seq![0xceu8] + be_bytes(v as nat, 4)
    } else {
        seq![0xcfu8] + be_bytes(v as nat, 8)
    }
}

/// Smallest encoding of a signed integer; non-negative values are written
/// as unsigned ones.
pub open spec fn int_header(v: i64) -> Seq<u8> {
    if v >= 0 {
        uint_header(v as u64)
    } else if v >= -32 {
        seq![twos(v as int, 1) as u8]
    } else if v >= -128 {
        seq![0xd0u8, twos(v as int, 1) as u8]
    } else if v >= -32768 {
        seq![0xd1u8] + be_bytes(twos(v as int, 2), 2)
    } else if v >= -0x8000_0000 {
        seq![0xd2u8] + be_bytes(twos(v as int, 4), 4)
    } else {
        seq![0xd3u8] + be_bytes(twos(v as int, 8), 8)
    }
}

/// A float32 header carrying the given bits.
pub open spec fn f32_header(bits: u32) -> Seq<u8> {
    seq![0xcau8] + be_bytes(bits as nat, 4)
}

/// A float64 header carrying the given bits.
pub open spec fn f64_header(bits: u64) -> Seq<u8> {
    seq![0xcbu8] + be_bytes(bits as nat, 8)
}

/// Array header for `n` elements; none when `n` exceeds `u32::MAX`.
pub open spec fn array_header(n: usize) -> Option<Seq<u8>> {
    if n <= 15 {
        Some(seq![(0x90 + n) as u8])
    } else if n <= 0xffff {
        Some(seq![0xdcu8] + be_bytes(n as nat, 2))
    } else if n <= 0xffff_ffff {
        Some(seq![0xddu8] + be_bytes(n as nat, 4))
    } else {
        None
    }
}

/// Map header for `n` pairs; none when `n` exceeds `u32::MAX`.
pub open spec fn map_header(n: usize) -> Option<Seq<u8>> {
    if n <= 15 {
        Some(seq![(0x80 + n) as u8])
    } else if n <= 0xffff {
        Some(seq![0xdeu8] + be_bytes(n as nat, 2))
    } else if n <= 0xffff_ffff {
        Some(seq![0xdfu8] + be_bytes(n as nat, 4))
    } else {
        None
    }
}

/// String header for `n` bytes; none when `n` exceeds `u32::MAX`.
pub open spec fn str_header(n: usize) -> Option<Seq<u8>> {
    if n <= 31 {
        Some(seq![(0xa0 + n) as u8])
    } else if n <= 0xff {
        Some(seq![0xd9u8, n as u8])
    } else if n <= 0xffff {
        Some(seq![0xdau8] + be_bytes(n as nat, 2))
    } else if n <= 0xffff_ffff {
        Some(seq![0xdbu8] + be_bytes(n as nat, 4))
    } else {
        None
    }
}

/// String header in the older MessagePack format, which has no `str8`:
/// lengths from 32 to 255 take the two-byte-length form; none when `n`
/// exceeds `u32::MAX`.
pub open spec fn str_header_v4(n: usize) -> Option<Seq<u8>> {
    if n <= 31 {
        Some(seq![(0xa0 + n) as u8])
    } else if n <= 0xffff {
        Some(seq![0xdau8] + be_bytes(n as nat, 2))
    } else if n <= 0xffff_ffff {
        Some(seq![0xdbu8] + be_bytes(n as nat, 4))
    } else {
        None
    }
}

/// Binary header for `n` bytes; none when `n` exceeds `u32::MAX`.
pub open spec fn bin_header(n: usize) -> Option<Seq<u8>> {
    if n <= 0xff {
        Some(seq![0xc4u8, n as u8])
    } else if n <= 0xffff {
        Some(seq![0xc5u8] + be_bytes(n as nat, 2))
    } else if n <= 0xffff_ffff {
        Some(seq![0xc6u8] + be_bytes(n as nat, 4))
    } else {
        None
    }
}

/// Extension header for type `t` and `n` payload bytes, the shortest form;
/// none when `n` exceeds `u32::MAX`.
pub open spec fn ext_header(t: i8, n: usize) -> Option<Seq<u8>> {
    let tb = ext_type_byte(t);
    if n == 1 {
        Some(seq![0xd4u8, tb])
    } else if n == 2 {
        Some(seq![0xd5u8, tb])
    } else if n == 4 {
        Some(seq![0xd6u8, tb])
    } else if n == 8 {
        Some(seq![0xd7u8, tb])
    } else if n == 16 {
        Some(seq![0xd8u8, tb])
    } else if n <= 0xff {
        Some(seq![0xc7u8, n as u8, tb])
    } else if n <= 0xffff {
        Some(seq![0xc8u8] + be_bytes(n as nat, 2) + seq![tb])
    } else if n <= 0xffff_ffff {
        Some(seq![0xc9u8] + be_bytes(n as nat, 4) + seq![tb])
    } else {
        None
    }
}

/// Whether a timestamp's nanosecond part is in range.
pub open spec fn timestamp_valid(nanoseconds: u32) -> bool {
    nanoseconds <= 999_999_999
}

/// The complete timestamp extension (header and payload), in its shortest form.
pub open spec fn timestamp_header(seconds: i64, nanoseconds: u32) -> Seq<u8> {
    if 0 <= seconds <= 0xffff_ffff && nanoseconds == 0 {
        seq![0xd6u8, 0xffu8] + be_bytes(seconds as nat, 4)
    } else if 0 <= seconds < 0x4_0000_0000 {
        seq![0xd7u8, 0xffu8] + be_bytes(nanoseconds as nat * 0x4_0000_0000 + seconds as nat, 8)
    } else {
        seq![0xc7u8, 12u8, 0xffu8] + be_bytes(nanoseconds as nat, 4) + be_bytes(
            twos(seconds as int, 8),
            8,
        )
    }
}

} // verus!
