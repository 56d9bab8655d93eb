//! What a reader gives back of what a writer wrote: each header the writer
//! emits decodes to the value it was written from, whatever follows it.

use vstd::prelude::*;
use crate::common::{Error, Tag, Timestamp, TIMESTAMP_EXT_TYPE};
use crate::endian::{
    be_bytes, be_value, lemma_be_bytes_len, lemma_be_roundtrip, lemma_pow256_values, pow256,
    signed_of,
};
use crate::reader::{
    tag_array, tag_bin, tag_bool, tag_ext, tag_i64, tag_map, tag_str, tag_u64, ReaderView,
};
use crate::wire::{
    array_header, bin_header, decode_tag, ext_header, ext_type_byte, ext_type_of, f32_header,
    f64_header, field, header_size, int_header, map_header, str_header, timestamp_header,
    timestamp_of, twos, uint_header,
};
use crate::writer::WriterView;
use crate::digest::tag_header;
use crate::expect::{bin_size_step, buf_step, filled};

verus! {

broadcast use crate::endian::lemma_be_bytes_len;

/// A field of `n` big-endian bytes at offset `off` reads back the value
/// they encode.
proof fn lemma_field_at(s: Seq<u8>, off: int, v: nat, n: nat)
    requires
        v < pow256(n),
        0 <= off,
        off + n <= s.len(),
        s.subrange(off, off + n) == be_bytes(v, n),
    ensures
        field(s, off, n) == v,
{
    lemma_be_roundtrip(v, n);
}

/// The one-byte encoding of a byte value is that byte.
proof fn lemma_be_bytes_one(b: u8)
    ensures
        be_bytes(b as nat, 1) == seq![b],
{
    assert(be_bytes(b as nat, 1) =~= seq![b]);
}

/// Reading back the two's-complement bits of a value in range gives it.
proof fn lemma_twos_signed(v: int, n: nat)
    requires
        n >= 1,
        -(pow256(n) / 2) <= v < pow256(n) / 2,
    ensures
        twos(v, n) < pow256(n),
        signed_of(twos(v, n), n) == v,
{
}

/// The extension type byte reads back as the extension type.
proof fn lemma_ext_type(t: i8)
    ensures
        ext_type_of(ext_type_byte(t)) == t,
{
    lemma_pow256_values();
    lemma_twos_signed(t as int, 1);
}

/// Decoding a header that is followed by other bytes: the header of a
/// complete value is `h` whenever its marker announces `h.len()` bytes.
pub(crate) proof fn lemma_read_header(r: ReaderView, h: Seq<u8>, rest: Seq<u8>)
    requires
        r.wf(),
        r.error == Error::NoError,
        r.rest() == h + rest,
        h.len() >= 1,
        h[0] != 0xc1,
        header_size(h[0]) == h.len(),
    ensures
        r.tag_step(true) == (r.advance(h.len() as int), Some(decode_tag(h + rest))),
{
    assert(r.rest().len() == r.data.len() - r.pos);
    assert((h + rest)[0] == h[0]);
    assert(r.rest()[0] == r.data[r.pos]);
}

/// A reader over what a writer held after some writes, followed by `rest`,
/// positioned where those writes began (at the end of what it held before).
pub open spec fn reader_after(before: WriterView, after: WriterView, rest: Seq<u8>) -> ReaderView {
    ReaderView { data: after.written + rest, pos: before.written.len() as int, error: Error::NoError }
}

/// What a successful header write leaves in front of the reader.
proof fn lemma_after_put(w: WriterView, h: Seq<u8>, rest: Seq<u8>)
    requires
        w.put(h).error == Error::NoError,
    ensures
        w.put(h).written == w.written + h,
        w.error == Error::NoError,
        reader_after(w, w.put(h), rest).rest() == h + rest,
{
    assert(reader_after(w, w.put(h), rest).rest() =~= h + rest);
}

/// What a successful header-and-payload write leaves in front of the reader.
proof fn lemma_after_put_bytes(w: WriterView, h: Option<Seq<u8>>, b: Seq<u8>, rest: Seq<u8>)
    requires
        w.put_opt(h).put_bytes(b).error == Error::NoError,
    ensures
        h is Some,
        w.error == Error::NoError,
        w.put_opt(h).put_bytes(b).written == w.written + h.unwrap() + b,
        reader_after(w, w.put_opt(h).put_bytes(b), rest).rest() == h.unwrap() + (b + rest),
{
    let w1 = w.put_opt(h);
    assert(b.subrange(0, b.len() as int) =~= b);
    assert(w1.written + Seq::<u8>::empty() =~= w1.written);
    assert(reader_after(w, w.put_opt(h).put_bytes(b), rest).rest() =~= h.unwrap() + (b + rest));
}

proof fn lemma_uint_decodes(v: u64, rest: Seq<u8>)
    ensures
        uint_header(v).len() >= 1,
        uint_header(v)[0] != 0xc1,
        header_size(uint_header(v)[0]) == uint_header(v).len(),
        decode_tag(uint_header(v) + rest) == Tag::Uint(v),
{
    lemma_pow256_values();
    let h = uint_header(v);
    let s = h + rest;
    if v <= 0x7f {
    } else if v <= 0xff {
        lemma_be_bytes_one(v as u8);
        assert(s.subrange(1, 2) =~= be_bytes(v as nat, 1));
        lemma_field_at(s, 1, v as nat, 1);
    } else if v <= 0xffff {
        assert(s.subrange(1, 3) =~= be_bytes(v as nat, 2));
        lemma_field_at(s, 1, v as nat, 2);
    } else if v <= 0xffff_ffff {
        assert(s.subrange(1, 5) =~= be_bytes(v as nat, 4));
        lemma_field_at(s, 1, v as nat, 4);
    } else {
        assert(s.subrange(1, 9) =~= be_bytes(v as nat, 8));
        lemma_field_at(s, 1, v as nat, 8);
    }
}

proof fn lemma_int_decodes(v: i64, rest: Seq<u8>)
    ensures
        int_header(v).len() >= 1,
        int_header(v)[0] != 0xc1,
        header_size(int_header(v)[0]) == int_header(v).len(),
        decode_tag(int_header(v) + rest) == if v >= 0 {
            Tag::Uint(v as u64)
        } else {
            Tag::Int(v)
        },
{
    lemma_pow256_values();
    let h = int_header(v);
    let s = h + rest;
    if v >= 0 {
        lemma_uint_decodes(v as u64, rest);
    } else if v >= -32 {
    } else if v >= -128 {
        lemma_twos_signed(v as int, 1);
        lemma_be_bytes_one(twos(v as int, 1) as u8);
        assert(s.subrange(1, 2) =~= be_bytes(twos(v as int, 1), 1));
        lemma_field_at(s, 1, twos(v as int, 1), 1);
    } else if v >= -32768 {
        lemma_twos_signed(v as int, 2);
        assert(s.subrange(1, 3) =~= be_bytes(twos(v as int, 2), 2));
        lemma_field_at(s, 1, twos(v as int, 2), 2);
    } else if v >= -0x8000_0000 {
        lemma_twos_signed(v as int, 4);
        assert(s.subrange(1, 5) =~= be_bytes(twos(v as int, 4), 4));
        lemma_field_at(s, 1, twos(v as int, 4), 4);
    } else {
        lemma_twos_signed(v as int, 8);
        assert(s.subrange(1, 9) =~= be_bytes(twos(v as int, 8), 8));
        lemma_field_at(s, 1, twos(v as int, 8), 8);
    }
}

proof fn lemma_float_decodes(f: u32, d: u64, rest: Seq<u8>)
    ensures
        f32_header(f).len() == 5,
        header_size(f32_header(f)[0]) == 5,
        decode_tag(f32_header(f) + rest) == Tag::Float(f),
        f64_header(d).len() == 9,
        header_size(f64_header(d)[0]) == 9,
        decode_tag(f64_header(d) + rest) == Tag::Double(d),
{
    lemma_pow256_values();
    let s = f32_header(f) + rest;
    assert(s.subrange(1, 5) =~= be_bytes(f as nat, 4));
    lemma_field_at(s, 1, f as nat, 4);
    let t = f64_header(d) + rest;
    assert(t.subrange(1, 9) =~= be_bytes(d as nat, 8));
    lemma_field_at(t, 1, d as nat, 8);
}

proof fn lemma_array_map_decode(n: usize, rest: Seq<u8>)
    requires
        n <= u32::MAX,
    ensures
        array_header(n) matches Some(h) && h.len() >= 1 && h[0] != 0xc1 && header_size(h[0])
            == h.len() && decode_tag(h + rest) == Tag::Array(n as u32),
        map_header(n) matches Some(h) && h.len() >= 1 && h[0] != 0xc1 && header_size(h[0])
            == h.len() && decode_tag(h + rest) == Tag::Mapping(n as u32),
{
    lemma_pow256_values();
    let a = array_header(n).unwrap();
    let m = map_header(n).unwrap();
    let sa = a + rest;
    let sm = m + rest;
    if n <= 15 {
    } else if n <= 0xffff {
        assert(sa.subrange(1, 3) =~= be_bytes(n as nat, 2));
        lemma_field_at(sa, 1, n as nat, 2);
        assert(sm.subrange(1, 3) =~= be_bytes(n as nat, 2));
        lemma_field_at(sm, 1, n as nat, 2);
    } else {
        assert(sa.subrange(1, 5) =~= be_bytes(n as nat, 4));
        lemma_field_at(sa, 1, n as nat, 4);
        assert(sm.subrange(1, 5) =~= be_bytes(n as nat, 4));
        lemma_field_at(sm, 1, n as nat, 4);
    }
}

proof fn lemma_str_decodes(n: usize, rest: Seq<u8>)
    requires
        n <= u32::MAX,
    ensures
        str_header(n) matches Some(h) && h.len() >= 1 && h[0] != 0xc1 && header_size(h[0])
            == h.len() && decode_tag(h + rest) == Tag::Str(n as u32),
{
    lemma_pow256_values();
    let h = str_header(n).unwrap();
    let s = h + rest;
    if n <= 31 {
    } else if n <= 0xff {
        lemma_be_bytes_one(n as u8);
        assert(s.subrange(1, 2) =~= be_bytes(n as nat, 1));
        lemma_field_at(s, 1, n as nat, 1);
    } else if n <= 0xffff {
        assert(s.subrange(1, 3) =~= be_bytes(n as nat, 2));
        lemma_field_at(s, 1, n as nat, 2);
    } else {
        assert(s.subrange(1, 5) =~= be_bytes(n as nat, 4));
        lemma_field_at(s, 1, n as nat, 4);
    }
}

proof fn lemma_bin_decodes(n: usize, rest: Seq<u8>)
    requires
        n <= u32::MAX,
    ensures
        bin_header(n) matches Some(h) && h.len() >= 1 && h[0] != 0xc1 && header_size(h[0])
            == h.len() && decode_tag(h + rest) == Tag::Bin(n as u32),
{
    lemma_pow256_values();
    let h = bin_header(n).unwrap();
    let s = h + rest;
    if n <= 0xff {
        lemma_be_bytes_one(n as u8);
        assert(s.subrange(1, 2) =~= be_bytes(n as nat, 1));
        lemma_field_at(s, 1, n as nat, 1);
    } else if n <= 0xffff {
        assert(s.subrange(1, 3) =~= be_bytes(n as nat, 2));
        lemma_field_at(s, 1, n as nat, 2);
    } else {
        assert(s.subrange(1, 5) =~= be_bytes(n as nat, 4));
        lemma_field_at(s, 1, n as nat, 4);
    }
}

proof fn lemma_ext_decodes(t: i8, n: usize, rest: Seq<u8>)
    requires
        n <= u32::MAX,
    ensures
        ext_header(t, n) matches Some(h) && h.len() >= 1 && h[0] != 0xc1 && header_size(h[0])
            == h.len() && decode_tag(h + rest) == (Tag::Ext { extension_type: t, length: n as u32 }),
{
    lemma_pow256_values();
    lemma_ext_type(t);
    let tb = ext_type_byte(t);
    let h = ext_header(t, n).unwrap();
    let s = h + rest;
    if n == 1 || n == 2 || n == 4 || n == 8 || n == 16 {
        assert(s[1] == tb);
    } else if n <= 0xff {
        assert(s[2] == tb);
        lemma_be_bytes_one(n as u8);
        assert(s.subrange(1, 2) =~= be_bytes(n as nat, 1));
        lemma_field_at(s, 1, n as nat, 1);
    } else if n <= 0xffff {
        assert(s[3] == tb);
        assert(s.subrange(1, 3) =~= be_bytes(n as nat, 2));
        lemma_field_at(s, 1, n as nat, 2);
    } else {
        assert(s[5] == tb);
        assert(s.subrange(1, 5) =~= be_bytes(n as nat, 4));
        lemma_field_at(s, 1, n as nat, 4);
    }
}

proof fn lemma_packed_bound(ns: u32, sec: int)
    by (nonlinear_arith)
    requires
        ns <= 999_999_999,
        0 <= sec < 0x4_0000_0000,
    ensures
        0 <= ns * 0x4_0000_0000 + sec < 0x1_0000_0000_0000_0000,
{
}

/// The complete timestamp extension splits into a header announcing an ext
/// of the timestamp type, and a payload that spells the timestamp.
proof fn lemma_timestamp_decodes(seconds: i64, ns: u32, rest: Seq<u8>)
    requires
        ns <= 999_999_999,
    ensures
        ({
            let full = timestamp_header(seconds, ns);
            let hl = header_size(full[0]) as int;
            &&& 1 <= hl < full.len()
            &&& full[0] != 0xc1
            &&& decode_tag(full + rest) == (Tag::Ext {
                extension_type: TIMESTAMP_EXT_TYPE,
                length: (full.len() - hl) as u32,
            })
            &&& timestamp_of(full.subrange(hl, full.len() as int)) == (Timestamp {
                seconds,
                nanoseconds: ns,
            })
        }),
{
    lemma_pow256_values();
    lemma_ext_type(-1i8);
    let full = timestamp_header(seconds, ns);
    let s = full + rest;
    if 0 <= seconds <= 0xffff_ffff && ns == 0 {
        let p = full.subrange(2, 6);
        assert(p =~= be_bytes(seconds as nat, 4));
        lemma_be_roundtrip(seconds as nat, 4);
    } else if 0 <= seconds < 0x4_0000_0000 {
        let packed = ns as nat * 0x4_0000_0000 + seconds as nat;
        lemma_packed_bound(ns, seconds as int);
        let p = full.subrange(2, 10);
        assert(p =~= be_bytes(packed, 8));
        lemma_be_roundtrip(packed, 8);
        vstd::arithmetic::div_mod::lemma_fundamental_div_mod_converse(
            packed as int,
            0x4_0000_0000,
            ns as int,
            seconds as int,
        );
    } else {
        lemma_be_bytes_one(12u8);
        assert(s.subrange(1, 2) =~= be_bytes(12, 1));
        lemma_field_at(s, 1, 12, 1);
        let p = full.subrange(3, 15);
        lemma_twos_signed(seconds as int, 8);
        assert(p.subrange(0, 4) =~= be_bytes(ns as nat, 4));
        lemma_field_at(p, 0, ns as nat, 4);
        assert(p.subrange(4, 12) =~= be_bytes(twos(seconds as int, 8), 8));
        lemma_field_at(p, 4, twos(seconds as int, 8), 8);
    }
}

/// The header the writer gives a tag, followed by any bytes, decodes back
/// to that tag, unless it is a non-negative signed integer (which the
/// writer writes, and a reader reads, as unsigned).
pub(crate) proof fn lemma_tag_header_decodes(t: Tag, rest: Seq<u8>)
    requires
        t matches Tag::Int(v) ==> v < 0,
    ensures
        tag_header(t) is Some,
        tag_header(t)->0.len() >= 1,
        tag_header(t)->0[0] != 0xc1,
        header_size(tag_header(t)->0[0]) == tag_header(t)->0.len(),
        decode_tag(tag_header(t)->0 + rest) == t,
{
    match t {
        Tag::Nil => {},
        Tag::Bool(v) => {},
        Tag::Int(v) => {
            lemma_int_decodes(v, rest);
        },
        Tag::Uint(v) => {
            lemma_uint_decodes(v, rest);
        },
        Tag::Float(b) => {
            lemma_float_decodes(b, 0, rest);
        },
        Tag::Double(b) => {
            lemma_float_decodes(0, b, rest);
        },
        Tag::Str(n) => {
            lemma_str_decodes(n as usize, rest);
        },
        Tag::Bin(n) => {
            lemma_bin_decodes(n as usize, rest);
        },
        Tag::Array(n) => {
            lemma_array_map_decode(n as usize, rest);
        },
        Tag::Mapping(n) => {
            lemma_array_map_decode(n as usize, rest);
        },
        Tag::Ext { extension_type, length } => {
            lemma_ext_decodes(extension_type, length as usize, rest);
        },
    }
}

/// After `write_nil` succeeds, `read_nil` at the place the write began
/// succeeds and moves past the one marker byte.
pub proof fn law_nil_read_back(w: WriterView, rest: Seq<u8>)
    requires
        w.put(seq![0xc0u8]).error == Error::NoError,
        w.put(seq![0xc0u8]).written.len() + rest.len() <= usize::MAX,
    ensures
        ({
            let r = reader_after(w, w.put(seq![0xc0u8]), rest);
            r.typed_step(|t: Tag| if t == Tag::Nil { Some(()) } else { None }) == (r.advance(1), Some(()))
        }),
{
    let h = seq![0xc0u8];
    lemma_after_put(w, h, rest);
    lemma_read_header(reader_after(w, w.put(h), rest), h, rest);
}

/// After `write_bool(v)` succeeds, `read_bool` reads `v` back.
pub proof fn law_bool_read_back(w: WriterView, v: bool, rest: Seq<u8>)
    requires
        w.put(seq![if v { 0xc3u8 } else { 0xc2u8 }]).error == Error::NoError,
        w.put(seq![if v { 0xc3u8 } else { 0xc2u8 }]).written.len() + rest.len() <= usize::MAX,
    ensures
        ({
            let r = reader_after(w, w.put(seq![if v { 0xc3u8 } else { 0xc2u8 }]), rest);
            r.typed_step(|t: Tag| tag_bool(t)) == (r.advance(1), Some(v))
        }),
{
    let h = seq![if v { 0xc3u8 } else { 0xc2u8 }];
    lemma_after_put(w, h, rest);
    lemma_read_header(reader_after(w, w.put(h), rest), h, rest);
}

/// After `write_u64(v)` succeeds, `read_u64` reads `v` back and moves past
/// exactly the bytes written.
pub proof fn law_u64_read_back(w: WriterView, v: u64, rest: Seq<u8>)
    requires
        w.put(uint_header(v)).error == Error::NoError,
        w.put(uint_header(v)).written.len() + rest.len() <= usize::MAX,
    ensures
        ({
            let r = reader_after(w, w.put(uint_header(v)), rest);
            r.typed_step(|t: Tag| tag_u64(t)) == (r.advance(uint_header(v).len() as int), Some(v))
        }),
{
    let h = uint_header(v);
    lemma_after_put(w, h, rest);
    lemma_uint_decodes(v, rest);
    lemma_read_header(reader_after(w, w.put(h), rest), h, rest);
}

/// After `write_i64(v)` succeeds, `read_i64` reads `v` back, whichever
/// form the writer chose.
pub proof fn law_i64_read_back(w: WriterView, v: i64, rest: Seq<u8>)
    requires
        w.put(int_header(v)).error == Error::NoError,
        w.put(int_header(v)).written.len() + rest.len() <= usize::MAX,
    ensures
        ({
            let r = reader_after(w, w.put(int_header(v)), rest);
            r.typed_step(|t: Tag| tag_i64(t)) == (r.advance(int_header(v).len() as int), Some(v))
        }),
{
    let h = int_header(v);
    lemma_after_put(w, h, rest);
    lemma_int_decodes(v, rest);
    lemma_read_header(reader_after(w, w.put(h), rest), h, rest);
}

/// After a float or double is written from its bits, the next tag read
/// carries the same bits.
pub proof fn law_float_read_back(w: WriterView, f: u32, d: u64, rest: Seq<u8>)
    ensures
        w.put(f32_header(f)).error == Error::NoError && w.put(f32_header(f)).written.len()
            + rest.len() <= usize::MAX ==> ({
            let r = reader_after(w, w.put(f32_header(f)), rest);
            r.tag_step(true) == (r.advance(5), Some(Tag::Float(f)))
        }),
        w.put(f64_header(d)).error == Error::NoError && w.put(f64_header(d)).written.len()
            + rest.len() <= usize::MAX ==> ({
            let r = reader_after(w, w.put(f64_header(d)), rest);
            r.tag_step(true) == (r.advance(9), Some(Tag::Double(d)))
        }),
{
    lemma_float_decodes(f, d, rest);
    if w.put(f32_header(f)).error == Error::NoError && w.put(f32_header(f)).written.len()
        + rest.len() <= usize::MAX {
        lemma_after_put(w, f32_header(f), rest);
        lemma_read_header(reader_after(w, w.put(f32_header(f)), rest), f32_header(f), rest);
    }
    if w.put(f64_header(d)).error == Error::NoError && w.put(f64_header(d)).written.len()
        + rest.len() <= usize::MAX {
        lemma_after_put(w, f64_header(d), rest);
        lemma_read_header(reader_after(w, w.put(f64_header(d)), rest), f64_header(d), rest);
    }
}

/// After an array header for `n` elements is written, `read_array_header`
/// reads `n` back.
pub proof fn law_array_read_back(w: WriterView, n: usize, rest: Seq<u8>)
    requires
        w.put_opt(array_header(n)).error == Error::NoError,
        w.put_opt(array_header(n)).written.len() + rest.len() <= usize::MAX,
    ensures
        array_header(n) is Some,
        ({
            let r = reader_after(w, w.put_opt(array_header(n)), rest);
            r.typed_step(|t: Tag| tag_array(t)) == (
                r.advance(array_header(n).unwrap().len() as int),
                Some(n as u32),
            )
        }),
{
    assert(array_header(n) is Some);
    let h = array_header(n).unwrap();
    lemma_after_put(w, h, rest);
    lemma_array_map_decode(n, rest);
    lemma_read_header(reader_after(w, w.put(h), rest), h, rest);
}

/// After a map header for `n` pairs is written, `read_map_header` reads `n`
/// back.
pub proof fn law_map_read_back(w: WriterView, n: usize, rest: Seq<u8>)
    requires
        w.put_opt(map_header(n)).error == Error::NoError,
        w.put_opt(map_header(n)).written.len() + rest.len() <= usize::MAX,
    ensures
        map_header(n) is Some,
        ({
            let r = reader_after(w, w.put_opt(map_header(n)), rest);
            r.typed_step(|t: Tag| tag_map(t)) == (
                r.advance(map_header(n).unwrap().len() as int),
                Some(n as u32),
            )
        }),
{
    assert(map_header(n) is Some);
    let h = map_header(n).unwrap();
    lemma_after_put(w, h, rest);
    lemma_array_map_decode(n, rest);
    lemma_read_header(reader_after(w, w.put(h), rest), h, rest);
}

/// After `write_str(value)` succeeds, `read_str_header` reads the length
/// back and the payload that follows is `value`.
pub proof fn law_str_read_back(w: WriterView, value: Seq<u8>, rest: Seq<u8>)
    requires
        w.put_opt(str_header(value.len() as usize)).put_bytes(value).error == Error::NoError,
        w.put_opt(str_header(value.len() as usize)).put_bytes(value).written.len() + rest.len()
            <= usize::MAX,
    ensures
        str_header(value.len() as usize) is Some,
        ({
            let r = reader_after(w, w.put_opt(str_header(value.len() as usize)).put_bytes(value), rest);
            let r1 = r.advance(str_header(value.len() as usize).unwrap().len() as int);
            &&& r.typed_step(|t: Tag| tag_str(t)) == (r1, Some(value.len() as u32))
            &&& r1.can_read(value.len() as int)
            &&& r1.payload(value.len() as int) == value
        }),
{
    let hh = str_header(value.len() as usize);
    lemma_after_put_bytes(w, hh, value, rest);
    let h = hh.unwrap();
    let r = reader_after(w, w.put_opt(hh).put_bytes(value), rest);
    lemma_str_decodes(value.len() as usize, value + rest);
    assert(h + (value + rest) =~= h + value + rest);
    lemma_read_header(r, h, value + rest);
    let r1 = r.advance(h.len() as int);
    assert(r1.payload(value.len() as int) =~= value);
}

/// After `write_bin(value)` succeeds, `read_bin_header` reads the length
/// back and the payload that follows is `value`.
pub proof fn law_bin_read_back(w: WriterView, value: Seq<u8>, rest: Seq<u8>)
    requires
        w.put_opt(bin_header(value.len() as usize)).put_bytes(value).error == Error::NoError,
        w.put_opt(bin_header(value.len() as usize)).put_bytes(value).written.len() + rest.len()
            <= usize::MAX,
    ensures
        bin_header(value.len() as usize) is Some,
        ({
            let r = reader_after(w, w.put_opt(bin_header(value.len() as usize)).put_bytes(value), rest);
            let r1 = r.advance(bin_header(value.len() as usize).unwrap().len() as int);
            &&& r.typed_step(|t: Tag| tag_bin(t)) == (r1, Some(value.len() as u32))
            &&& r1.can_read(value.len() as int)
            &&& r1.payload(value.len() as int) == value
        }),
{
    let hh = bin_header(value.len() as usize);
    lemma_after_put_bytes(w, hh, value, rest);
    let h = hh.unwrap();
    let r = reader_after(w, w.put_opt(hh).put_bytes(value), rest);
    lemma_bin_decodes(value.len() as usize, value + rest);
    lemma_read_header(r, h, value + rest);
    let r1 = r.advance(h.len() as int);
    assert(r1.payload(value.len() as int) =~= value);
}

/// After `write_ext(t, value)` succeeds, `read_ext_header` reads the type
/// and length back and the payload that follows is `value`.
pub proof fn law_ext_read_back(w: WriterView, t: i8, value: Seq<u8>, rest: Seq<u8>)
    requires
        w.put_opt(ext_header(t, value.len() as usize)).put_bytes(value).error == Error::NoError,
        w.put_opt(ext_header(t, value.len() as usize)).put_bytes(value).written.len() + rest.len()
            <= usize::MAX,
    ensures
        ext_header(t, value.len() as usize) is Some,
        ({
            let r = reader_after(
                w,
                w.put_opt(ext_header(t, value.len() as usize)).put_bytes(value),
                rest,
            );
            let r1 = r.advance(ext_header(t, value.len() as usize).unwrap().len() as int);
            &&& r.typed_step(|tag: Tag| tag_ext(tag)) == (r1, Some((t, value.len() as u32)))
            &&& r1.can_read(value.len() as int)
            &&& r1.payload(value.len() as int) == value
        }),
{
    let hh = ext_header(t, value.len() as usize);
    lemma_after_put_bytes(w, hh, value, rest);
    let h = hh.unwrap();
    let r = reader_after(w, w.put_opt(hh).put_bytes(value), rest);
    lemma_ext_decodes(t, value.len() as usize, value + rest);
    lemma_read_header(r, h, value + rest);
    let r1 = r.advance(h.len() as int);
    assert(r1.payload(value.len() as int) =~= value);
}

/// After `write_timestamp(seconds, nanoseconds)` succeeds, the next value is
/// an ext of the timestamp type whose payload `read_timestamp` reads back
/// as the same instant, ending where the write ended.
pub proof fn law_timestamp_read_back(w: WriterView, seconds: i64, nanoseconds: u32, rest: Seq<u8>)
    requires
        w.put_timestamp(seconds, nanoseconds).error == Error::NoError,
        w.put_timestamp(seconds, nanoseconds).written.len() + rest.len() <= usize::MAX,
    ensures
        ({
            let r = reader_after(w, w.put_timestamp(seconds, nanoseconds), rest);
            let (r1, t) = r.typed_step(|tag: Tag| tag_ext(tag));
            &&& t matches Some((et, len)) && et == TIMESTAMP_EXT_TYPE && r1.timestamp_step(len as int)
                == (
                r.advance(timestamp_header(seconds, nanoseconds).len() as int),
                Some(Timestamp { seconds, nanoseconds }),
            )
        }),
{
    lemma_pow256_values();
    let full = timestamp_header(seconds, nanoseconds);
    assert(nanoseconds <= 999_999_999);
    lemma_after_put(w, full, rest);
    lemma_timestamp_decodes(seconds, nanoseconds, rest);
    let hl = header_size(full[0]) as int;
    let h = full.subrange(0, hl);
    let p = full.subrange(hl, full.len() as int);
    let r = reader_after(w, w.put(full), rest);
    assert(h + (p + rest) =~= full + rest);
    lemma_read_header(r, h, p + rest);
    let r1 = r.advance(hl);
    assert(r1.payload(p.len() as int) =~= p);
}

/// Expecting binary data of exactly its length: before a bin header for
/// `payload` and `payload` itself, a buffer at least as long as the payload
/// (one exactly as long included) receives it at its start, the rest of the
/// buffer kept, and the reader moves past both without error; a shorter
/// buffer receives nothing and the reader records a type error.
pub proof fn law_bin_size_buf_fits(r: ReaderView, payload: Seq<u8>, rest: Seq<u8>, buf: Seq<u8>)
    requires
        r.wf(),
        r.error == Error::NoError,
        payload.len() <= u32::MAX,
        bin_header(payload.len() as usize) matches Some(h) && r.rest() == h + payload + rest,
    ensures
        ({
            let h = bin_header(payload.len() as usize).unwrap();
            let (r2, got) = bin_size_step(r, buf.len(), payload.len() as u32);
            &&& payload.len() <= buf.len() ==> {
                &&& r2 == r.advance((h.len() + payload.len()) as int)
                &&& got == Some(payload)
                &&& filled(buf, payload).len() == buf.len()
                &&& filled(buf, payload).subrange(0, payload.len() as int) == payload
                &&& filled(buf, payload).subrange(payload.len() as int, buf.len() as int)
                    == buf.subrange(payload.len() as int, buf.len() as int)
            }
            &&& payload.len() > buf.len() ==> r2.error == Error::Type && got is None
        }),
{
    let n = payload.len();
    let h = bin_header(n as usize).unwrap();
    lemma_bin_decodes(n as usize, payload + rest);
    assert(h + payload + rest =~= h + (payload + rest));
    lemma_read_header(r, h, payload + rest);
    let r1 = r.advance(h.len() as int);
    assert(r.typed_step(|t: Tag| tag_bin(t)) == (r1, Some(n as u32)));
    assert(r1.rest() =~= payload + rest) by {
        assert(r.rest().subrange(h.len() as int, r.rest().len() as int) =~= payload + rest);
    }
    assert(r1.payload(n as int) =~= payload) by {
        assert forall|k: int| 0 <= k < n implies #[trigger] r1.payload(n as int)[k] == payload[k] by {
            assert(r1.rest()[k] == r1.data[r1.pos + k]);
        }
    }
    if n <= buf.len() {
        assert(filled(buf, payload).subrange(0, n as int) =~= payload);
        assert(filled(buf, payload).subrange(n as int, buf.len() as int) =~= buf.subrange(
            n as int,
            buf.len() as int,
        ));
    }
}

/// Reading binary data into a buffer: before a bin header for `payload` and
/// `payload` itself, a buffer at least as long as the payload (one exactly
/// as long included) receives it and the reader moves past both without
/// error; a shorter buffer receives nothing and the reader records
/// `TooBig`.
pub proof fn law_bin_buf_fits(r: ReaderView, payload: Seq<u8>, rest: Seq<u8>, cap: nat)
    requires
        r.wf(),
        r.error == Error::NoError,
        payload.len() <= u32::MAX,
        bin_header(payload.len() as usize) matches Some(h) && r.rest() == h + payload + rest,
    ensures
        ({
            let h = bin_header(payload.len() as usize).unwrap();
            let (r2, got) = buf_step(r.typed_step(|t: Tag| tag_bin(t)), cap);
            &&& payload.len() <= cap ==> r2 == r.advance((h.len() + payload.len()) as int) && got
                == Some(payload)
            &&& payload.len() > cap ==> r2.error == Error::TooBig && got is None
        }),
{
    let n = payload.len();
    let h = bin_header(n as usize).unwrap();
    lemma_bin_decodes(n as usize, payload + rest);
    assert(h + payload + rest =~= h + (payload + rest));
    lemma_read_header(r, h, payload + rest);
    let r1 = r.advance(h.len() as int);
    assert(r1.rest() =~= payload + rest) by {
        assert(r.rest().subrange(h.len() as int, r.rest().len() as int) =~= payload + rest);
    }
    assert(r1.payload(n as int) =~= payload) by {
        assert forall|k: int| 0 <= k < n implies #[trigger] r1.payload(n as int)[k] == payload[k] by {
            assert(r1.rest()[k] == r1.data[r1.pos + k]);
        }
    }
}

} // verus!
