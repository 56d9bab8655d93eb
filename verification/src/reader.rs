//! A MessagePack reader over caller-owned, fixed input data.
//!
//! The first error is sticky: once it is set, decoding and payload operations
//! return without consuming any more input.

use vstd::prelude::*;
use vstd::slice::slice_subrange;
use vstd::utf8::valid_utf8;
use crate::common::{Error, Number, Tag, Timestamp, TIMESTAMP_NANOSECONDS_MAX};
use crate::endian::{be_decode, be_value, lemma_be_value_bound, lemma_pow256_values, pow256, signed_of};
use crate::wire::{decode_tag, ext_type_of, field, header_size, timestamp_of};

verus! {

/// The state a reader is in: its input, how much of it was consumed, and its
/// sticky error.
pub struct ReaderView {
    pub data: Seq<u8>,
    pub pos: int,
    pub error: Error,
}

/// The unsigned value a tag holds, if it holds one that fits in `u64`.
pub open spec fn tag_u64(t: Tag) -> Option<u64> {
    match t {
        Tag::Uint(v) => Some(v),
        Tag::Int(v) => if v >= 0 { Some(v as u64) } else { None },
        _ => None,
    }
}

/// The signed value a tag holds, if it holds one that fits in `i64`.
pub open spec fn tag_i64(t: Tag) -> Option<i64> {
    match t {
        Tag::Int(v) => Some(v),
        Tag::Uint(v) => if v <= i64::MAX { Some(v as i64) } else { None },
        _ => None,
    }
}

pub open spec fn tag_bool(t: Tag) -> Option<bool> {
    match t {
        Tag::Bool(b) => Some(b),
        _ => None,
    }
}

pub open spec fn tag_str(t: Tag) -> Option<u32> {
    match t {
        Tag::Str(n) => Some(n),
        _ => None,
    }
}

pub open spec fn tag_bin(t: Tag) -> Option<u32> {
    match t {
        Tag::Bin(n) => Some(n),
        _ => None,
    }
}

pub open spec fn tag_array(t: Tag) -> Option<u32> {
    match t {
        Tag::Array(n) => Some(n),
        _ => None,
    }
}

pub open spec fn tag_map(t: Tag) -> Option<u32> {
    match t {
        Tag::Mapping(n) => Some(n),
        _ => None,
    }
}

/// The bits of a float32 tag.
pub open spec fn tag_float_bits(t: Tag) -> Option<u32> {
    match t {
        Tag::Float(b) => Some(b),
        _ => None,
    }
}

/// The bits of a float64 tag.
pub open spec fn tag_double_bits(t: Tag) -> Option<u64> {
    match t {
        Tag::Double(b) => Some(b),
        _ => None,
    }
}

/// A float32 or float64 tag, as encoded.
pub open spec fn tag_real(t: Tag) -> Option<Number> {
    match t {
        Tag::Float(b) => Some(Number::Float(b)),
        Tag::Double(b) => Some(Number::Double(b)),
        _ => None,
    }
}

/// Any numeric tag, as encoded.
pub open spec fn tag_number(t: Tag) -> Option<Number> {
    match t {
        Tag::Uint(v) => Some(Number::Uint(v)),
        Tag::Int(v) => Some(Number::Int(v)),
        Tag::Float(b) => Some(Number::Float(b)),
        Tag::Double(b) => Some(Number::Double(b)),
        _ => None,
    }
}

pub open spec fn tag_ext(t: Tag) -> Option<(i8, u32)> {
    match t {
        Tag::Ext { extension_type, length } => Some((extension_type, length)),
        _ => None,
    }
}

impl ReaderView {
    pub open spec fn wf(self) -> bool {
        0 <= self.pos <= self.data.len() <= usize::MAX
    }

    /// The unconsumed input.
    pub open spec fn rest(self) -> Seq<u8> {
        self.data.subrange(self.pos, self.data.len() as int)
    }

    pub open spec fn remaining(self) -> int {
        self.data.len() - self.pos
    }

    /// Records `e` unless an error is already recorded.
    pub open spec fn flag(self, e: Error) -> ReaderView {
        if self.error == Error::NoError && e != Error::NoError {
            ReaderView { data: self.data, pos: self.pos, error: e }
        } else {
            self
        }
    }

    pub open spec fn advance(self, n: int) -> ReaderView {
        ReaderView { data: self.data, pos: self.pos + n, error: self.error }
    }

    /// Decoding the next header; with `consume` false the position is kept.
    pub open spec fn tag_step(self, consume: bool) -> (ReaderView, Option<Tag>) {
        if self.error != Error::NoError {
            (self, None)
        } else if self.pos >= self.data.len() {
            (self.flag(Error::Invalid), None)
        } else if self.remaining() < header_size(self.data[self.pos]) {
            (self.flag(Error::Invalid), None)
        } else if self.data[self.pos] == 0xc1 {
            (self.flag(Error::Invalid).advance(if consume { 1 } else { 0 }), None)
        } else {
            (
                self.advance(if consume { header_size(self.data[self.pos]) as int } else { 0 }),
                Some(decode_tag(self.rest())),
            )
        }
    }

    /// Decoding the next header and converting it with `conv`; a header that
    /// does not convert records a type error.
    pub open spec fn typed_step<T>(self, conv: spec_fn(Tag) -> Option<T>) -> (
        ReaderView,
        Option<T>,
    ) {
        let (s1, t) = self.tag_step(true);
        match t {
            None => (s1, None),
            Some(t) => match conv(t) {
                Some(v) => (s1, Some(v)),
                None => (s1.flag(Error::Type), None),
            },
        }
    }

    /// Advancing past `n` payload bytes.
    pub open spec fn skip(self, n: int) -> ReaderView {
        if self.error != Error::NoError {
            self
        } else if self.remaining() < n {
            self.flag(Error::Invalid)
        } else {
            self.advance(n)
        }
    }

    /// Whether `n` payload bytes can be read.
    pub open spec fn can_read(self, n: int) -> bool {
        self.error == Error::NoError && n <= self.remaining()
    }

    /// The next `n` payload bytes.
    pub open spec fn payload(self, n: int) -> Seq<u8> {
        self.data.subrange(self.pos, self.pos + n)
    }

    /// Reading `n` payload bytes that must be well-formed UTF-8.
    pub open spec fn utf8_step(self, n: int) -> ReaderView {
        if !self.can_read(n) {
            self.skip(n)
        } else if !valid_utf8(self.payload(n)) {
            self.flag(Error::Type)
        } else {
            self.advance(n)
        }
    }

    /// Reading a timestamp payload of `size` bytes.
    pub open spec fn timestamp_step(self, size: int) -> (ReaderView, Option<Timestamp>) {
        if self.error != Error::NoError {
            (self, None)
        } else if size != 4 && size != 8 && size != 12 {
            (self.flag(Error::Invalid), None)
        } else if self.remaining() < size {
            (self.flag(Error::Invalid), None)
        } else if timestamp_of(self.payload(size)).nanoseconds > TIMESTAMP_NANOSECONDS_MAX {
            (self.flag(Error::Invalid), None)
        } else {
            (self.advance(size), Some(timestamp_of(self.payload(size))))
        }
    }

    /// Skipping one complete value, nested arrays and maps included; on an
    /// error it stops where the error occurred. An array or map that
    /// announces more elements than bytes remain is invalid at once.
    pub open spec fn discard_value(self) -> ReaderView
        decreases (if self.wf() { self.remaining() } else { 0 }), 0int, 0int,
    {
        let (s1, t) = self.tag_step(true);
        if !self.wf() || !s1.wf() || s1.data != self.data || s1.pos <= self.pos {
            s1
        } else {
            match t {
                Some(Tag::Str(n)) => s1.skip(n as int),
                Some(Tag::Bin(n)) => s1.skip(n as int),
                Some(Tag::Ext { extension_type: _, length: n }) => s1.skip(n as int),
                Some(Tag::Array(n)) => if n > s1.remaining() {
                    s1.flag(Error::Invalid)
                } else {
                    s1.discard_values(n as int)
                },
                Some(Tag::Mapping(n)) => if 2 * n > s1.remaining() {
                    s1.flag(Error::Invalid)
                } else {
                    s1.discard_values(2 * n as int)
                },
                _ => s1,
            }
        }
    }

    /// Skipping `n` complete values, stopping at the first error.
    pub open spec fn discard_values(self, n: int) -> ReaderView
        decreases (if self.wf() { self.remaining() } else { 0 }), 1int, n,
    {
        if n <= 0 || self.error != Error::NoError || !self.wf() {
            self
        } else {
            let s2 = self.discard_value();
            if s2.error != Error::NoError || !s2.wf() || s2.data != self.data || s2.pos
                <= self.pos {
                s2
            } else {
                s2.discard_values(n - 1)
            }
        }
    }
}

/// Discarding keeps the input and well-formedness, never moves back, and
/// moves forward unless it fails.
pub(crate) proof fn lemma_discard_progress(r: ReaderView)
    requires
        r.wf(),
    ensures
        r.discard_value().wf(),
        r.discard_value().data == r.data,
        r.discard_value().pos >= r.pos,
        r.discard_value().error == Error::NoError ==> r.discard_value().pos > r.pos,
        r.error != Error::NoError ==> r.discard_value() == r,
    decreases r.remaining(), 0int, 0int,
{
    let (s1, t) = r.tag_step(true);
    if s1.wf() && s1.data == r.data && s1.pos > r.pos {
        match t {
            Some(Tag::Array(n)) => {
                if n <= s1.remaining() {
                    lemma_discard_values_progress(s1, n as int);
                }
            },
            Some(Tag::Mapping(n)) => {
                if 2 * n <= s1.remaining() {
                    lemma_discard_values_progress(s1, 2 * n as int);
                }
            },
            _ => {},
        }
    }
}

proof fn lemma_discard_values_progress(r: ReaderView, n: int)
    requires
        r.wf(),
    ensures
        r.discard_values(n).wf(),
        r.discard_values(n).data == r.data,
        r.discard_values(n).pos >= r.pos,
    decreases r.remaining(), 1int, n,
{
    if n > 0 && r.error == Error::NoError {
        lemma_discard_progress(r);
        let s2 = r.discard_value();
        if s2.error == Error::NoError && s2.wf() && s2.data == r.data && s2.pos > r.pos {
            lemma_discard_values_progress(s2, n - 1);
        }
    }
}

/// The rest of a discard with open compounds `stack` (innermost last), each
/// with the number of values it still holds: it stops at the first error.
pub open spec fn discard_pending(r: ReaderView, stack: Seq<int>) -> ReaderView
    decreases stack.len(),
{
    if stack.len() == 0 {
        r
    } else {
        let r2 = r.discard_values(stack.last());
        if r2.error != Error::NoError {
            r2
        } else {
            discard_pending(r2, stack.drop_last())
        }
    }
}

/// Handling a value whose header was just read: skipping its payload, or
/// checking that the input can hold its elements; the number of values it
/// holds, for an array or a map.
pub open spec fn open_step(s1: ReaderView, tag: Tag) -> (ReaderView, Option<int>) {
    match tag {
        Tag::Str(n) => (s1.skip(n as int), None),
        Tag::Bin(n) => (s1.skip(n as int), None),
        Tag::Ext { extension_type: _, length: n } => (s1.skip(n as int), None),
        Tag::Array(n) => if n > s1.remaining() {
            (s1.flag(Error::Invalid), None)
        } else {
            (s1, Some(n as int))
        },
        Tag::Mapping(n) => if 2 * n > s1.remaining() {
            (s1.flag(Error::Invalid), None)
        } else {
            (s1, Some(2 * n as int))
        },
        _ => (s1, None),
    }
}

/// The stack after opening a value: a compound adds a frame for its
/// values.
pub open spec fn pushed(stack: Seq<int>, c: Option<int>) -> Seq<int> {
    match c {
        Some(n) => stack.push(n),
        None => stack,
    }
}

/// Discarding a value that starts at `r` is reading its header, handling
/// it, and discarding the values it holds.
proof fn lemma_discard_unfold(r: ReaderView)
    requires
        r.wf(),
        r.error == Error::NoError,
    ensures
        r.tag_step(true).1 is None ==> r.discard_value() == r.tag_step(true).0 && r.tag_step(
            true,
        ).0.error != Error::NoError,
        r.tag_step(true).1 matches Some(tag) ==> {
            let s1 = r.tag_step(true).0;
            &&& s1.wf()
            &&& s1.data == r.data
            &&& s1.pos > r.pos
            &&& s1.error == Error::NoError
            &&& r.discard_value() == discard_pending(
                open_step(s1, tag).0,
                pushed(Seq::empty(), open_step(s1, tag).1),
            )
            &&& open_step(s1, tag).0.error != Error::NoError ==> r.discard_value() == open_step(
                s1,
                tag,
            ).0
        },
{
    let s1 = r.tag_step(true).0;
    match r.tag_step(true).1 {
        None => {
            assert(s1.error != Error::NoError);
            assert(r.discard_value() == s1);
        },
        Some(tag) => {
            let (s2, c) = open_step(s1, tag);
            assert(r.discard_value() == match c {
                None => s2,
                Some(n) => s2.discard_values(n),
            });
            match c {
                None => {
                    assert(pushed(Seq::empty(), c) == Seq::<int>::empty());
                    assert(discard_pending(s2, Seq::empty()) == s2);
                },
                Some(n) => {
                    lemma_discard_values_progress(s2, n);
                    let r2 = s2.discard_values(n);
                    let one = pushed(Seq::empty(), c);
                    assert(one =~= seq![n]);
                    assert(one.drop_last() =~= Seq::<int>::empty());
                    assert(one.last() == n);
                    if r2.error == Error::NoError {
                        assert(discard_pending(r2, Seq::empty()) == r2);
                    }
                },
            }
        },
    }
}

/// One step of an iterative discard: with the innermost compound still
/// holding `m > 0` values, read the next header and handle it.
proof fn lemma_pending_step(r: ReaderView, stack: Seq<int>)
    requires
        r.wf(),
        r.error == Error::NoError,
        stack.len() > 0,
        stack.last() > 0,
    ensures
        r.tag_step(true).1 is None ==> discard_pending(r, stack) == r.tag_step(true).0,
        r.tag_step(true).1 matches Some(tag) ==> {
            let s2 = open_step(r.tag_step(true).0, tag).0;
            let c = open_step(r.tag_step(true).0, tag).1;
            let rest = stack.drop_last().push(stack.last() - 1);
            if s2.error != Error::NoError {
                discard_pending(r, stack) == s2
            } else {
                discard_pending(r, stack) == discard_pending(s2, pushed(rest, c))
            }
        },
{
    let m = stack.last();
    let rest = stack.drop_last().push(m - 1);
    assert(rest.drop_last() =~= stack.drop_last());
    assert(rest.last() == m - 1);
    lemma_discard_unfold(r);
    lemma_discard_progress(r);
    let s1 = r.tag_step(true).0;
    let d = r.discard_value();
    lemma_discard_progress(r);
    match r.tag_step(true).1 {
        None => {},
        Some(tag) => {
            let (s2, c) = open_step(s1, tag);
            if s2.error == Error::NoError {
                match c {
                    None => {
                        assert(pushed(Seq::<int>::empty(), c) =~= Seq::<int>::empty());
                        assert(d == s2);
                        assert(r.discard_values(m) == s2.discard_values(m - 1));
                        assert(pushed(rest, c) == rest);
                        let r2 = s2.discard_values(m - 1);
                        assert(discard_pending(r, stack) == if r2.error != Error::NoError {
                            r2
                        } else {
                            discard_pending(r2, stack.drop_last())
                        });
                        assert(discard_pending(s2, rest) == if r2.error != Error::NoError {
                            r2
                        } else {
                            discard_pending(r2, rest.drop_last())
                        });
                    },
                    Some(n) => {
                        let one = seq![n];
                        assert(pushed(Seq::empty(), c) =~= one);
                        assert(one.drop_last() =~= Seq::<int>::empty());
                        let q = s2.discard_values(n);
                        assert(discard_pending(s2, one) == if q.error != Error::NoError {
                            q
                        } else {
                            discard_pending(q, Seq::empty())
                        });
                        assert(d == q);
                        let pr = rest.push(n);
                        assert(pushed(rest, c) == pr);
                        assert(pr.drop_last() =~= rest);
                        assert(pr.last() == n);
                        assert(discard_pending(s2, pr) == if q.error != Error::NoError {
                            q
                        } else {
                            discard_pending(q, rest)
                        });
                        if q.error == Error::NoError {
                            assert(r.discard_values(m) == q.discard_values(m - 1));
                            let r2 = q.discard_values(m - 1);
                            assert(discard_pending(r, stack) == if r2.error != Error::NoError {
                                r2
                            } else {
                                discard_pending(r2, stack.drop_last())
                            });
                            assert(discard_pending(q, rest) == if r2.error != Error::NoError {
                                r2
                            } else {
                                discard_pending(r2, rest.drop_last())
                            });
                        } else {
                            assert(r.discard_values(m) == q);
                        }
                    },
                }
            }
        },
    }
}

/// A finished innermost compound is dropped.
proof fn lemma_pending_done(r: ReaderView, stack: Seq<int>)
    requires
        r.error == Error::NoError,
        stack.len() > 0,
        stack.last() == 0,
    ensures
        discard_pending(r, stack) == discard_pending(r, stack.drop_last()),
{
}

/// The counts of a stack of frames.
pub open spec fn counts(v: Seq<usize>) -> Seq<int> {
    v.map_values(|x: usize| x as int)
}

/// A MessagePack reader over caller-owned, fixed input data.
#[derive(Debug)]
pub struct Reader<'data> {
    data: &'data [u8],
    position: usize,
    error: Error,
}

impl<'data> View for Reader<'data> {
    type V = ReaderView;

    closed spec fn view(&self) -> ReaderView {
        ReaderView { data: self.data@, pos: self.position as int, error: self.error }
    }
}

/// Total header size for a marker byte.
fn header_size_of(m: u8) -> (n: usize)
    ensures
        n == header_size(m),
{
    if m == 0xc4 || m == 0xcc || m == 0xd0 || m == 0xd9 || (0xd4 <= m && m <= 0xd8) {
        2
    } else if m == 0xc5 || m == 0xc7 || m == 0xcd || m == 0xd1 || m == 0xda || m == 0xdc || m
        == 0xde {
        3
    } else if m == 0xc8 {
        4
    } else if m == 0xc6 || m == 0xca || m == 0xce || m == 0xd2 || m == 0xdb || m == 0xdd || m
        == 0xdf {
        5
    } else if m == 0xc9 {
        6
    } else if m == 0xcb || m == 0xcf || m == 0xd3 {
        9
    } else {
        1
    }
}

/// The big-endian field of `n` bytes at `pos + off` of `data`.
fn field_at(data: &[u8], pos: usize, off: usize, n: usize) -> (v: u64)
    requires
        n <= 8,
        off <= 8,
        pos + off + n <= data@.len(),
    ensures
        v == field(data@.subrange(pos as int, data@.len() as int), off as int, n as nat),
        v < pow256(n as nat),
{
    let len = data.len();
    assert(pos + off + n <= len);
    let v = be_decode(data, pos + off, n);
    proof {
        let rest = data@.subrange(pos as int, data@.len() as int);
        assert(rest.subrange(off as int, off + n) =~= data@.subrange(pos + off, pos + off + n));
        lemma_be_value_bound(data@.subrange(pos + off, pos + off + n));
    }
    v
}

/// Two's-complement reading of an `n`-byte unsigned value.
fn signed(v: u64, n: usize) -> (r: i64)
    requires
        n == 1 || n == 2 || n == 4 || n == 8,
        v < pow256(n as nat),
    ensures
        r == signed_of(v as nat, n as nat),
{
    proof {
        lemma_pow256_values();
    }
    if n == 8 {
        if v >= 0x8000_0000_0000_0000 {
            ((v - 0x8000_0000_0000_0000) as i64) + i64::MIN
        } else {
            v as i64
        }
    } else {
        let full: u64 = if n == 1 {
            0x100
        } else if n == 2 {
            0x1_0000
        } else {
            0x1_0000_0000
        };
        if v >= full / 2 {
            (v as i64) - (full as i64)
        } else {
            v as i64
        }
    }
}

/// The tag that the complete header at `pos` spells.
fn decode_at(data: &[u8], pos: usize) -> (t: Tag)
    requires
        pos < data@.len(),
        data@.len() - pos >= header_size(data@[pos as int]),
        data@[pos as int] != 0xc1,
    ensures
        t == decode_tag(data@.subrange(pos as int, data@.len() as int)),
{
    let ghost rest = data@.subrange(pos as int, data@.len() as int);
    proof {
        lemma_pow256_values();
    }
    let m = data[pos];
    assert(rest[0] == m);
    if m <= 0x7f {
        Tag::Uint(m as u64)
    } else if m <= 0x8f {
        Tag::Mapping((m - 0x80) as u32)
    } else if m <= 0x9f {
        Tag::Array((m - 0x90) as u32)
    } else if m <= 0xbf {
        Tag::Str((m - 0xa0) as u32)
    } else if m == 0xc0 {
        Tag::Nil
    } else if m == 0xc2 {
        Tag::Bool(false)
    } else if m == 0xc3 {
        Tag::Bool(true)
    } else if m == 0xc4 {
        Tag::Bin(field_at(data, pos, 1, 1) as u32)
    } else if m == 0xc5 {
        Tag::Bin(field_at(data, pos, 1, 2) as u32)
    } else if m == 0xc6 {
        Tag::Bin(field_at(data, pos, 1, 4) as u32)
    } else if m == 0xc7 {
        let length = field_at(data, pos, 1, 1) as u32;
        let b = data[pos + 2];
        assert(rest[2] == b);
        Tag::Ext { extension_type: signed(b as u64, 1) as i8, length }
    } else if m == 0xc8 {
        let length = field_at(data, pos, 1, 2) as u32;
        let b = data[pos + 3];
        assert(rest[3] == b);
        Tag::Ext { extension_type: signed(b as u64, 1) as i8, length }
    } else if m == 0xc9 {
        let length = field_at(data, pos, 1, 4) as u32;
        let b = data[pos + 5];
        assert(rest[5] == b);
        Tag::Ext { extension_type: signed(b as u64, 1) as i8, length }
    } else if m == 0xca {
        Tag::Float(field_at(data, pos, 1, 4) as u32)
    } else if m == 0xcb {
        Tag::Double(field_at(data, pos, 1, 8))
    } else if m == 0xcc {
        Tag::Uint(field_at(data, pos, 1, 1))
    } else if m == 0xcd {
        Tag::Uint(field_at(data, pos, 1, 2))
    } else if m == 0xce {
        Tag::Uint(field_at(data, pos, 1, 4))
    } else if m == 0xcf {
        Tag::Uint(field_at(data, pos, 1, 8))
    } else if m == 0xd0 {
        Tag::Int(signed(field_at(data, pos, 1, 1), 1))
    } else if m == 0xd1 {
        Tag::Int(signed(field_at(data, pos, 1, 2), 2))
    } else if m == 0xd2 {
        Tag::Int(signed(field_at(data, pos, 1, 4), 4))
    } else if m == 0xd3 {
        Tag::Int(signed(field_at(data, pos, 1, 8), 8))
    } else if m >= 0xd4 && m <= 0xd8 {
        let b = data[pos + 1];
        assert(rest[1] == b);
        let extension_type = signed(b as u64, 1) as i8;
        let length: u32 = if m == 0xd4 {
            1
        } else if m == 0xd5 {
            2
        } else if m == 0xd6 {
            4
        } else if m == 0xd7 {
            8
        } else {
            16
        };
        Tag::Ext { extension_type, length }
    } else if m == 0xd9 {
        Tag::Str(field_at(data, pos, 1, 1) as u32)
    } else if m == 0xda {
        Tag::Str(field_at(data, pos, 1, 2) as u32)
    } else if m == 0xdb {
        Tag::Str(field_at(data, pos, 1, 4) as u32)
    } else if m == 0xdc {
        Tag::Array(field_at(data, pos, 1, 2) as u32)
    } else if m == 0xdd {
        Tag::Array(field_at(data, pos, 1, 4) as u32)
    } else if m == 0xde {
        Tag::Mapping(field_at(data, pos, 1, 2) as u32)
    } else if m == 0xdf {
        Tag::Mapping(field_at(data, pos, 1, 4) as u32)
    } else {
        Tag::Int(m as i64 - 256)
    }
}

impl<'data> Reader<'data> {
    pub closed spec fn spec_data(&self) -> &'data [u8] {
        self.data
    }

    /// Creates a reader over a complete MessagePack byte slice.
    pub fn new(data: &'data [u8]) -> (r: Self)
        ensures
            r@ == (ReaderView { data: data@, pos: 0, error: Error::NoError }),
            r@.wf(),
    {
        proof {
            assert(data@.len() == data.len());
        }
        Reader { data, position: 0, error: Error::NoError }
    }

    /// Returns the reader's sticky error.
    pub fn error(&self) -> (e: Error)
        ensures
            e == self@.error,
    {
        self.error
    }

    /// Returns the number of bytes consumed.
    pub fn used(&self) -> (n: usize)
        ensures
            n == self@.pos,
    {
        self.position
    }

    /// The next input byte, left unread.
    pub(crate) fn peek_byte(&self) -> (r: Option<u8>)
        ensures
            r == (if self@.pos < self@.data.len() {
                Some(self@.data[self@.pos])
            } else {
                None::<u8>
            }),
    {
        if self.position < self.data.len() {
            Some(self.data[self.position])
        } else {
            None
        }
    }

    /// Returns the number of unconsumed bytes.
    pub fn remaining(&self) -> (n: usize)
        requires
            self@.wf(),
        ensures
            n == self@.remaining(),
    {
        self.data.len() - self.position
    }

    /// Records an error if the reader is currently error-free.
    pub fn flag_error(&mut self, error: Error)
        ensures
            final(self)@ == old(self)@.flag(error),
    {
        if self.error == Error::NoError && error != Error::NoError {
            self.error = error;
        }
    }

    /// Decodes the next MessagePack tag, leaving any str/bin/ext payload unread.
    pub fn read_tag(&mut self) -> (t: Option<Tag>)
        requires
            old(self)@.wf(),
        ensures
            final(self)@.wf(),
            (final(self)@, t) == old(self)@.tag_step(true),
    {
        self.parse_tag(true)
    }

    /// Peeks the next MessagePack tag without consuming header bytes.
    pub fn peek_tag(&mut self) -> (t: Option<Tag>)
        requires
            old(self)@.wf(),
        ensures
            final(self)@.wf(),
            (final(self)@, t) == old(self)@.tag_step(false),
    {
        self.parse_tag(false)
    }

    fn parse_tag(&mut self, consume: bool) -> (t: Option<Tag>)
        requires
            old(self)@.wf(),
        ensures
            final(self)@.wf(),
            (final(self)@, t) == old(self)@.tag_step(consume),
    {
        if self.error != Error::NoError {
            return None;
        }
        let len = self.data.len();
        if self.position >= len {
            self.flag_error(Error::Invalid);
            return None;
        }
        let marker = self.data[self.position];
        let size = header_size_of(marker);
        if len - self.position < size {
            self.flag_error(Error::Invalid);
            return None;
        }
        if marker == 0xc1 {
            self.flag_error(Error::Invalid);
            if consume {
                self.position = self.position + 1;
            }
            return None;
        }
        let tag = decode_at(self.data, self.position);
        if consume {
            self.position = self.position + size;
        }
        Some(tag)
    }

    /// Advances past exactly `length` payload bytes.
    pub fn skip_bytes(&mut self, length: usize) -> (ok: bool)
        requires
            old(self)@.wf(),
        ensures
            final(self)@.wf(),
            ok == old(self)@.can_read(length as int),
            final(self)@ == old(self)@.skip(length as int),
    {
        if self.error != Error::NoError || !self.require(length) {
            return false;
        }
        self.position = self.position + length;
        true
    }

    /// Borrows exactly `length` payload bytes and advances past them.
    pub fn read_bytes(&mut self, length: usize) -> (r: Option<&'data [u8]>)
        requires
            old(self)@.wf(),
        ensures
            final(self)@.wf(),
            final(self)@ == old(self)@.skip(length as int),
            match r {
                Some(b) => old(self)@.can_read(length as int) && b@ == old(self)@.payload(
                    length as int,
                ),
                None => !old(self)@.can_read(length as int),
            },
    {
        if self.error != Error::NoError || !self.require(length) {
            return None;
        }
        let start = self.position;
        self.position = self.position + length;
        Some(slice_subrange(self.data, start, self.position))
    }

    /// Reads `length` payload bytes and requires well-formed UTF-8.
    pub fn read_bytes_utf8(&mut self, length: usize) -> (r: Option<&'data [u8]>)
        requires
            old(self)@.wf(),
        ensures
            final(self)@.wf(),
            final(self)@ == old(self)@.utf8_step(length as int),
            match r {
                Some(b) => old(self)@.can_read(length as int) && valid_utf8(
                    old(self)@.payload(length as int),
                ) && b@ == old(self)@.payload(length as int),
                None => !(old(self)@.can_read(length as int) && valid_utf8(
                    old(self)@.payload(length as int),
                )),
            },
    {
        if self.error != Error::NoError || !self.require(length) {
            return None;
        }
        let start = self.position;
        let end = start + length;
        let bytes = slice_subrange(self.data, start, end);
        if !check_utf8(bytes) {
            self.flag_error(Error::Type);
            return None;
        }
        self.position = end;
        Some(bytes)
    }

    /// Handles a value whose header was just read: skips its payload, or
    /// checks that the input can hold its elements and opens a frame for
    /// them.
    fn open_value(&mut self, tag: Tag, stack: &mut Vec<usize>)
        requires
            old(self)@.wf(),
            old(self)@.error == Error::NoError,
        ensures
            final(self)@.wf(),
            final(self)@ == open_step(old(self)@, tag).0,
            final(self)@.pos >= old(self)@.pos,
            counts(final(stack)@) == pushed(counts(old(stack)@), open_step(old(self)@, tag).1),
    {
        match tag {
            Tag::Str(length) => {
                let _ = self.skip_bytes(length as usize);
            },
            Tag::Bin(length) => {
                let _ = self.skip_bytes(length as usize);
            },
            Tag::Ext { extension_type: _, length } => {
                let _ = self.skip_bytes(length as usize);
            },
            Tag::Array(count) => {
                if count as usize > self.remaining() {
                    self.flag_error(Error::Invalid);
                } else {
                    stack.push(count as usize);
                }
            },
            Tag::Mapping(count) => {
                if count as usize > self.remaining() / 2 {
                    self.flag_error(Error::Invalid);
                } else {
                    stack.push(2 * count as usize);
                }
            },
            _ => {},
        }
        assert(counts(stack@) =~= pushed(counts(old(stack)@), open_step(old(self)@, tag).1));
    }

    /// Skips one full MessagePack value, nested arrays and maps included,
    /// without recursion; a compound announcing more elements than bytes
    /// remain records `Invalid` right after its header.
    pub fn discard(&mut self)
        requires
            old(self)@.wf(),
        ensures
            final(self)@.wf(),
            final(self)@ == old(self)@.discard_value(),
            final(self)@.data == old(self)@.data,
            final(self)@.pos >= old(self)@.pos,
            final(self)@.error == Error::NoError ==> final(self)@.pos > old(self)@.pos,
    {
        let ghost st0 = self@;
        proof {
            lemma_discard_progress(st0);
        }
        if self.error != Error::NoError {
            return ;
        }
        proof {
            lemma_discard_unfold(st0);
        }
        let tag = match self.read_tag() {
            Some(t) => t,
            None => {
                return ;
            },
        };
        let mut stack: Vec<usize> = Vec::new();
        assert(counts(stack@) =~= Seq::<int>::empty());
        self.open_value(tag, &mut stack);
        if self.error != Error::NoError {
            return ;
        }
        while stack.len() > 0
            invariant
                old(self)@ == st0,
                st0.wf(),
                self@.wf(),
                self@.error == Error::NoError,
                self@.data == st0.data,
                self@.pos > st0.pos,
                st0.discard_value() == discard_pending(self@, counts(stack@)),
            decreases self@.remaining(), stack@.len(),
        {
            let top = stack.len() - 1;
            let left = stack[top];
            assert(counts(stack@).last() == left as int);
            if left == 0 {
                let ghost before = counts(stack@);
                stack.pop();
                proof {
                    assert(counts(stack@) =~= before.drop_last());
                    lemma_pending_done(self@, before);
                }
                continue;
            }
            proof {
                lemma_pending_step(self@, counts(stack@));
            }
            let ghost rest = counts(stack@).drop_last().push(counts(stack@).last() - 1);
            stack.set(top, left - 1);
            assert(counts(stack@) =~= rest);
            let tag = match self.read_tag() {
                Some(t) => t,
                None => {
                    return ;
                },
            };
            self.open_value(tag, &mut stack);
            if self.error != Error::NoError {
                return ;
            }
        }
    }

    /// Reads a timestamp extension payload of `size` bytes (4, 8, or 12).
    ///
    /// Call after opening an ext tag whose payload length is `size`; the
    /// extension type is left to the caller.
    pub fn read_timestamp(&mut self, size: usize) -> (r: Option<Timestamp>)
        requires
            old(self)@.wf(),
        ensures
            final(self)@.wf(),
            (final(self)@, r) == old(self)@.timestamp_step(size as int),
    {
        if self.error != Error::NoError {
            return None;
        }
        if size != 4 && size != 8 && size != 12 {
            self.flag_error(Error::Invalid);
            return None;
        }
        if !self.require(size) {
            return None;
        }
        let start = self.position;
        let ghost p = self.data@.subrange(start as int, start + size);
        proof {
            lemma_pow256_values();
            lemma_be_value_bound(p);
        }
        let timestamp = if size == 4 {
            let seconds = be_decode(self.data, start, 4);
            Timestamp { seconds: seconds as i64, nanoseconds: 0 }
        } else if size == 8 {
            let packed = be_decode(self.data, start, 8);
            Timestamp {
                seconds: (packed % 0x4_0000_0000) as i64,
                nanoseconds: (packed / 0x4_0000_0000) as u32,
            }
        } else {
            let nanoseconds = be_decode(self.data, start, 4);
            let seconds = be_decode(self.data, start + 4, 8);
            proof {
                assert(p.subrange(0, 4) =~= self.data@.subrange(start as int, start + 4));
                assert(p.subrange(4, 12) =~= self.data@.subrange(start + 4, start + 12));
                lemma_be_value_bound(p.subrange(0, 4));
                lemma_be_value_bound(p.subrange(4, 12));
            }
            Timestamp { nanoseconds: nanoseconds as u32, seconds: signed(seconds, 8) }
        };
        if timestamp.nanoseconds > TIMESTAMP_NANOSECONDS_MAX {
            self.flag_error(Error::Invalid);
            return None;
        }
        self.position = start + size;
        Some(timestamp)
    }

    /// Reads a nil value; any other value records a type error.
    pub fn read_nil(&mut self) -> (ok: bool)
        requires
            old(self)@.wf(),
        ensures
            final(self)@.wf(),
            (final(self)@, if ok { Some(()) } else { None }) == old(self)@.typed_step(
                |t: Tag| if t == Tag::Nil { Some(()) } else { None },
            ),
    {
        match self.read_tag() {
            Some(Tag::Nil) => true,
            Some(_) => {
                self.flag_error(Error::Type);
                false
            },
            None => false,
        }
    }

    /// Reads a boolean value.
    pub fn read_bool(&mut self) -> (r: Option<bool>)
        requires
            old(self)@.wf(),
        ensures
            final(self)@.wf(),
            (final(self)@, r) == old(self)@.typed_step(|t: Tag| tag_bool(t)),
    {
        match self.read_tag() {
            Some(Tag::Bool(value)) => Some(value),
            Some(_) => {
                self.flag_error(Error::Type);
                None
            },
            None => None,
        }
    }

    /// Reads an integer representable as `u64`.
    pub fn read_u64(&mut self) -> (r: Option<u64>)
        requires
            old(self)@.wf(),
        ensures
            final(self)@.wf(),
            (final(self)@, r) == old(self)@.typed_step(|t: Tag| tag_u64(t)),
    {
        match self.read_tag() {
            Some(Tag::Uint(value)) => Some(value),
            Some(Tag::Int(value)) => {
                if value >= 0 {
                    Some(value as u64)
                } else {
                    self.flag_error(Error::Type);
                    None
                }
            },
            Some(_) => {
                self.flag_error(Error::Type);
                None
            },
            None => None,
        }
    }

    /// Reads an integer representable as `i64`.
    pub fn read_i64(&mut self) -> (r: Option<i64>)
        requires
            old(self)@.wf(),
        ensures
            final(self)@.wf(),
            (final(self)@, r) == old(self)@.typed_step(|t: Tag| tag_i64(t)),
    {
        match self.read_tag() {
            Some(Tag::Int(value)) => Some(value),
            Some(Tag::Uint(value)) => {
                if value <= i64::MAX as u64 {
                    Some(value as i64)
                } else {
                    self.flag_error(Error::Type);
                    None
                }
            },
            Some(_) => {
                self.flag_error(Error::Type);
                None
            },
            None => None,
        }
    }

    /// Reads a 32-bit float header and returns its IEEE-754 bits.
    pub fn read_f32_bits(&mut self) -> (r: Option<u32>)
        requires
            old(self)@.wf(),
        ensures
            final(self)@.wf(),
            (final(self)@, r) == old(self)@.typed_step(|t: Tag| tag_float_bits(t)),
    {
        match self.read_tag() {
            Some(Tag::Float(bits)) => Some(bits),
            Some(_) => {
                self.flag_error(Error::Type);
                None
            },
            None => None,
        }
    }

    /// Reads a float32 or float64 value, as encoded; converting it to a
    /// floating-point number is left to the caller.
    pub fn read_float_or_double(&mut self) -> (r: Option<Number>)
        requires
            old(self)@.wf(),
        ensures
            final(self)@.wf(),
            (final(self)@, r) == old(self)@.typed_step(|t: Tag| tag_real(t)),
    {
        match self.read_tag() {
            Some(Tag::Float(bits)) => Some(Number::Float(bits)),
            Some(Tag::Double(bits)) => Some(Number::Double(bits)),
            Some(_) => {
                self.flag_error(Error::Type);
                None
            },
            None => None,
        }
    }

    /// Reads a string header and returns its byte length.
    pub fn read_str_header(&mut self) -> (r: Option<u32>)
        requires
            old(self)@.wf(),
        ensures
            final(self)@.wf(),
            (final(self)@, r) == old(self)@.typed_step(|t: Tag| tag_str(t)),
    {
        match self.read_tag() {
            Some(Tag::Str(length)) => Some(length),
            Some(_) => {
                self.flag_error(Error::Type);
                None
            },
            None => None,
        }
    }

    /// Reads a binary header and returns its byte length.
    pub fn read_bin_header(&mut self) -> (r: Option<u32>)
        requires
            old(self)@.wf(),
        ensures
            final(self)@.wf(),
            (final(self)@, r) == old(self)@.typed_step(|t: Tag| tag_bin(t)),
    {
        match self.read_tag() {
            Some(Tag::Bin(length)) => Some(length),
            Some(_) => {
                self.flag_error(Error::Type);
                None
            },
            None => None,
        }
    }

    /// Reads an array header and returns its element count.
    pub fn read_array_header(&mut self) -> (r: Option<u32>)
        requires
            old(self)@.wf(),
        ensures
            final(self)@.wf(),
            (final(self)@, r) == old(self)@.typed_step(|t: Tag| tag_array(t)),
    {
        match self.read_tag() {
            Some(Tag::Array(length)) => Some(length),
            Some(_) => {
                self.flag_error(Error::Type);
                None
            },
            None => None,
        }
    }

    /// Reads a map header and returns its key-value pair count.
    pub fn read_map_header(&mut self) -> (r: Option<u32>)
        requires
            old(self)@.wf(),
        ensures
            final(self)@.wf(),
            (final(self)@, r) == old(self)@.typed_step(|t: Tag| tag_map(t)),
    {
        match self.read_tag() {
            Some(Tag::Mapping(length)) => Some(length),
            Some(_) => {
                self.flag_error(Error::Type);
                None
            },
            None => None,
        }
    }

    /// Reads an extension header and returns `(extension_type, byte_length)`.
    pub fn read_ext_header(&mut self) -> (r: Option<(i8, u32)>)
        requires
            old(self)@.wf(),
        ensures
            final(self)@.wf(),
            (final(self)@, r) == old(self)@.typed_step(|t: Tag| tag_ext(t)),
    {
        match self.read_tag() {
            Some(Tag::Ext { extension_type, length }) => Some((extension_type, length)),
            Some(_) => {
                self.flag_error(Error::Type);
                None
            },
            None => None,
        }
    }

    /// Whether `length` more bytes are available; records `Invalid` if not.
    fn require(&mut self, length: usize) -> (ok: bool)
        requires
            old(self)@.wf(),
        ensures
            ok == (length <= old(self)@.remaining()),
            final(self)@ == if ok {
                old(self)@
            } else {
                old(self)@.flag(Error::Invalid)
            },
    {
        if self.data.len() - self.position < length {
            self.flag_error(Error::Invalid);
            false
        } else {
            true
        }
    }
}

/// Returns whether `bytes` is well-formed UTF-8 (NUL bytes allowed).
pub fn check_utf8(bytes: &[u8]) -> (ok: bool)
    ensures
        ok == valid_utf8(bytes@),
{
    check_utf8_impl(bytes, true)
}

/// Returns whether `bytes` is well-formed UTF-8 with no NUL byte.
pub fn check_utf8_no_null(bytes: &[u8]) -> (ok: bool)
    ensures
        ok == (valid_utf8(bytes@) && !bytes@.contains(0u8)),
{
    check_utf8_impl(bytes, false)
}

fn check_utf8_impl(bytes: &[u8], allow_null: bool) -> (ok: bool)
    ensures
        ok == (valid_utf8(bytes@) && (allow_null || !bytes@.contains(0u8))),
{
    let n = bytes.len();
    let mut i: usize = 0;
    assert(bytes@.subrange(0, n as int) =~= bytes@);
    while i < n
        invariant
            i <= n,
            n == bytes@.len(),
            valid_utf8(bytes@) == valid_utf8(bytes@.subrange(i as int, n as int)),
            !allow_null ==> forall|j: int| 0 <= j < i ==> bytes@[j] != 0u8,
        decreases n - i,
    {
        let ghost rest = bytes@.subrange(i as int, n as int);
        let lead = bytes[i];
        assert(rest[0] == lead);
        if !allow_null && lead == 0 {
            assert(bytes@[i as int] == 0u8);
            return false;
        }
        if lead <= 0x7f {
            proof {
                assert((lead & 0x7f) as u32 == lead as u32) by (bit_vector)
                    requires
                        lead <= 0x7f,
                ;
                assert(rest.subrange(1, rest.len() as int) =~= bytes@.subrange(i + 1, n as int));
            }
            i = i + 1;
            continue;
        }
        if lead >= 0xc0 && lead <= 0xdf {
            if n - i < 2 || !(bytes[i + 1] >= 0x80 && bytes[i + 1] <= 0xbf) {
                return false;
            }
            let b1 = bytes[i + 1];
            assert(rest[1] == b1);
            let z: u32 = ((lead & 0x1f) as u32) << 6u32 | ((b1 & 0x3f) as u32);
            proof {
                assert(z <= 0x7ff) by (bit_vector)
                    requires
                        z == ((lead & 0x1f) as u32) << 6u32 | ((b1 & 0x3f) as u32),
                ;
            }
            if z < 0x80 {
                return false;
            }
            proof {
                assert(rest.subrange(2, rest.len() as int) =~= bytes@.subrange(i + 2, n as int));
            }
            i = i + 2;
            continue;
        }
        if lead >= 0xe0 && lead <= 0xef {
            if n - i < 3 || !(bytes[i + 1] >= 0x80 && bytes[i + 1] <= 0xbf) || !(bytes[i + 2]
                >= 0x80 && bytes[i + 2] <= 0xbf) {
                return false;
            }
            let b1 = bytes[i + 1];
            let b2 = bytes[i + 2];
            assert(rest[1] == b1 && rest[2] == b2);
            let z: u32 = ((lead & 0x0f) as u32) << 12u32 | ((b1 & 0x3f) as u32) << 6u32 | ((b2
                & 0x3f) as u32);
            if z < 0x800 || (z >= 0xd800 && z <= 0xdfff) {
                return false;
            }
            proof {
                assert(rest.subrange(3, rest.len() as int) =~= bytes@.subrange(i + 3, n as int));
            }
            i = i + 3;
            continue;
        }
        if lead >= 0xf0 && lead <= 0xf7 {
            if n - i < 4 || !(bytes[i + 1] >= 0x80 && bytes[i + 1] <= 0xbf) || !(bytes[i + 2]
                >= 0x80 && bytes[i + 2] <= 0xbf) || !(bytes[i + 3] >= 0x80 && bytes[i + 3]
                <= 0xbf) {
                return false;
            }
            let b1 = bytes[i + 1];
            let b2 = bytes[i + 2];
            let b3 = bytes[i + 3];
            assert(rest[1] == b1 && rest[2] == b2 && rest[3] == b3);
            let z: u32 = ((lead & 0x07) as u32) << 18u32 | ((b1 & 0x3f) as u32) << 12u32 | ((b2
                & 0x3f) as u32) << 6u32 | ((b3 & 0x3f) as u32);
            if !(z >= 0x10000 && z <= 0x10ffff) {
                return false;
            }
            proof {
                assert(rest.subrange(4, rest.len() as int) =~= bytes@.subrange(i + 4, n as int));
            }
            i = i + 4;
            continue;
        }
        return false;
    }
    proof {
        assert(bytes@.subrange(n as int, n as int) =~= Seq::<u8>::empty());
    }
    true
}


/// A reader that has recorded an error keeps it: reading tags, typed
/// values, payloads and timestamps, skipping and discarding all leave it
/// as it is and give nothing.
pub proof fn law_reader_sticky<T>(
    r: ReaderView,
    consume: bool,
    conv: spec_fn(Tag) -> Option<T>,
    n: int,
    size: int,
    e: Error,
)
    requires
        r.error != Error::NoError,
    ensures
        r.tag_step(consume) == (r, None::<Tag>),
        r.typed_step(conv) == (r, None::<T>),
        r.skip(n) == r,
        !r.can_read(n),
        r.utf8_step(n) == r,
        r.timestamp_step(size) == (r, None::<Timestamp>),
        r.discard_value() == r,
        r.discard_values(n) == r,
        r.flag(e) == r,
{
}

} // verus!
