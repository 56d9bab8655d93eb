//! MessagePack encoders: a fixed-buffer writer, a growable writer, a compound
//! tracker and a builder for arrays and maps of unknown size.

use vstd::prelude::*;
use vstd::slice::slice_subrange;
use crate::common::{Error, TIMESTAMP_NANOSECONDS_MAX};
use crate::endian::{append_slice, be_bytes, be_encode, lemma_pow256_values};
use crate::wire::{
    array_header, bin_header, ext_header, ext_type_byte, f32_header, f64_header, int_header,
    map_header, str_header, str_header_v4, timestamp_header, timestamp_valid, twos, uint_header,
};

verus! {

broadcast use crate::endian::lemma_be_bytes_len;

/// The state of a fixed-buffer writer: the bytes written so far, the buffer
/// capacity and the sticky error.
pub struct WriterView {
    pub written: Seq<u8>,
    pub capacity: nat,
    pub error: Error,
}

impl WriterView {
    pub open spec fn flag(self, e: Error) -> WriterView {
        if self.error == Error::NoError && e != Error::NoError {
            WriterView { written: self.written, capacity: self.capacity, error: e }
        } else {
            self
        }
    }

    /// Writing a complete header: it is written whole, or not at all and the
    /// writer records `TooBig`.
    pub open spec fn put(self, h: Seq<u8>) -> WriterView {
        if self.error != Error::NoError {
            self
        } else if self.capacity - self.written.len() < h.len() {
            self.flag(Error::TooBig)
        } else {
            WriterView { written: self.written + h, capacity: self.capacity, error: self.error }
        }
    }

    /// Writing a header that may not exist (a length beyond `u32::MAX`).
    pub open spec fn put_opt(self, h: Option<Seq<u8>>) -> WriterView {
        match h {
            Some(h) => self.put(h),
            None => self.flag(Error::TooBig),
        }
    }

    /// Writing raw payload bytes: as many as fit, then `TooBig` if some did not.
    pub open spec fn put_bytes(self, b: Seq<u8>) -> WriterView {
        if self.error != Error::NoError || b.len() == 0 {
            self
        } else {
            let avail = self.capacity - self.written.len();
            let n = if b.len() <= avail {
                b.len() as int
            } else {
                avail
            };
            WriterView {
                written: self.written + b.subrange(0, n),
                capacity: self.capacity,
                error: if n < b.len() {
                    Error::TooBig
                } else {
                    self.error
                },
            }
        }
    }

    /// Writing a timestamp; an out-of-range nanosecond part records `Bug`.
    pub open spec fn put_timestamp(self, seconds: i64, nanoseconds: u32) -> WriterView {
        if !timestamp_valid(nanoseconds) {
            self.flag(Error::Bug)
        } else {
            self.put(timestamp_header(seconds, nanoseconds))
        }
    }
}

/// A MessagePack writer into a fixed-size buffer that it owns.
#[derive(Debug)]
pub struct Writer {
    buffer: Vec<u8>,
    position: usize,
    error: Error,
}

impl View for Writer {
    type V = WriterView;

    closed spec fn view(&self) -> WriterView {
        WriterView {
            written: self.buffer@.subrange(0, self.position as int),
            capacity: self.buffer@.len(),
            error: self.error,
        }
    }
}

/// A one-byte header.
fn header1(a: u8) -> (h: Vec<u8>)
    ensures
        h@ == seq![a],
{
    let mut h = Vec::new();
    h.push(a);
    h
}

/// A two-byte header.
fn header2(a: u8, b: u8) -> (h: Vec<u8>)
    ensures
        h@ == seq![a, b],
{
    let mut h = Vec::new();
    h.push(a);
    h.push(b);
    h
}

/// A marker followed by the `n` big-endian bytes of `value`.
fn header_with_value(marker: u8, value: u64, n: usize) -> (h: Vec<u8>)
    requires
        n <= 8,
    ensures
        h@ == seq![marker] + be_bytes(value as nat, n as nat),
{
    let mut h = header1(marker);
    let tail = be_encode(value, n);
    append_slice(&mut h, tail.as_slice());
    h
}

/// The byte written for an extension type.
fn ext_type_byte_of(t: i8) -> (b: u8)
    ensures
        b == ext_type_byte(t),
{
    proof {
        lemma_pow256_values();
    }
    if t < 0 {
        (t as i16 + 256) as u8
    } else {
        t as u8
    }
}

/// Two's-complement bits of a 64-bit value.
fn i64_bits(v: i64) -> (r: u64)
    ensures
        r == twos(v as int, 8),
{
    proof {
        lemma_pow256_values();
    }
    if v < 0 {
        ((v - i64::MIN) as u64) + 0x8000_0000_0000_0000
    } else {
        v as u64
    }
}

impl Writer {
    pub closed spec fn wf(&self) -> bool {
        self.position <= self.buffer@.len()
    }

    /// Creates a writer over `buffer`; its length is the writer's capacity.
    pub fn new(buffer: Vec<u8>) -> (w: Self)
        ensures
            w.wf(),
            w@ == (WriterView { written: Seq::empty(), capacity: buffer@.len(), error: Error::NoError }),
    {
        let w = Writer { buffer, position: 0, error: Error::NoError };
        assert(w@.written =~= Seq::<u8>::empty());
        w
    }

    /// Returns the writer's sticky error.
    pub fn error(&self) -> (e: Error)
        ensures
            e == self@.error,
    {
        self.error
    }

    /// Returns the number of bytes written into the buffer.
    pub fn used(&self) -> (n: usize)
        requires
            self.wf(),
        ensures
            n == self@.written.len(),
    {
        self.position
    }

    /// Returns the encoded bytes written so far.
    pub fn written(&self) -> (s: &[u8])
        requires
            self.wf(),
        ensures
            s@ == self@.written,
    {
        slice_subrange(self.buffer.as_slice(), 0, self.position)
    }

    /// Writes a complete header only when all of it fits.
    fn write_header(&mut self, header: &[u8])
        requires
            old(self).wf(),
        ensures
            final(self).wf(),
            final(self)@ == old(self)@.put(header@),
    {
        if self.error != Error::NoError {
            return ;
        }
        let n = header.len();
        if self.buffer.len() - self.position < n {
            self.error = Error::TooBig;
            return ;
        }
        let start = self.position;
        let blen = self.buffer.len();
        let ghost before = self.buffer@;
        let mut j: usize = 0;
        while j < n
            invariant
                j <= n,
                blen == self.buffer@.len(),
                n == header@.len(),
                start + n <= self.buffer@.len(),
                self.buffer@.len() == before.len(),
                self.position == start,
                self.error == Error::NoError,
                self.buffer@.subrange(0, start + j) == before.subrange(0, start as int)
                    + header@.subrange(0, j as int),
            decreases n - j,
        {
            let ghost prev = self.buffer@;
            self.buffer.set(start + j, header[j]);
            assert(self.buffer@ == prev.update(start + j, header@[j as int]));
            assert(self.buffer@.subrange(0, start + j + 1) =~= prev.subrange(0, start + j).push(
                header@[j as int],
            ));
            assert(header@.subrange(0, j + 1) =~= header@.subrange(0, j as int).push(
                header@[j as int],
            ));
            j = j + 1;
        }
        self.position = start + n;
        assert(header@.subrange(0, n as int) =~= header@);
    }

    fn flag_too_big(&mut self)
        requires
            old(self).wf(),
        ensures
            final(self).wf(),
            final(self)@ == old(self)@.flag(Error::TooBig),
    {
        if self.error == Error::NoError {
            self.error = Error::TooBig;
        }
    }

    fn write_byte(&mut self, byte: u8)
        requires
            old(self).wf(),
        ensures
            final(self).wf(),
            final(self)@ == old(self)@.put(seq![byte]),
    {
        let h = header1(byte);
        self.write_header(h.as_slice());
    }

    fn write_header_with_value(&mut self, marker: u8, value: u64, n: usize)
        requires
            old(self).wf(),
            n <= 8,
        ensures
            final(self).wf(),
            final(self)@ == old(self)@.put(seq![marker] + be_bytes(value as nat, n as nat)),
    {
        let h = header_with_value(marker, value, n);
        self.write_header(h.as_slice());
    }

    /// Writes the MessagePack nil marker.
    pub fn write_nil(&mut self)
        requires
            old(self).wf(),
        ensures
            final(self).wf(),
            final(self)@ == old(self)@.put(seq![0xc0u8]),
    {
        self.write_byte(0xc0);
    }

    /// Writes a MessagePack boolean.
    pub fn write_bool(&mut self, value: bool)
        requires
            old(self).wf(),
        ensures
            final(self).wf(),
            final(self)@ == old(self)@.put(seq![if value { 0xc3u8 } else { 0xc2u8 }]),
    {
        self.write_byte(if value { 0xc3 } else { 0xc2 });
    }

    /// Writes an unsigned integer using the smallest MessagePack representation.
    pub fn write_u64(&mut self, value: u64)
        requires
            old(self).wf(),
        ensures
            final(self).wf(),
            final(self)@ == old(self)@.put(uint_header(value)),
    {
        if value <= 0x7f {
            self.write_byte(value as u8);
        } else if value <= 0xff {
            let h = header2(0xcc, value as u8);
            self.write_header(h.as_slice());
        } else if value <= 0xffff {
            self.write_header_with_value(0xcd, value, 2);
        } else if value <= 0xffff_ffff {
            self.write_header_with_value(0xce, value, 4);
        } else {
            self.write_header_with_value(0xcf, value, 8);
        }
    }

    /// Alias for [`Writer::write_u64`].
    pub fn write_uint(&mut self, value: u64)
        requires
            old(self).wf(),
        ensures
            final(self).wf(),
            final(self)@ == old(self)@.put(uint_header(value)),
    {
        self.write_u64(value);
    }

    /// Writes an unsigned 8-bit integer using compact MessagePack encoding.
    pub fn write_u8(&mut self, value: u8)
        requires
            old(self).wf(),
        ensures
            final(self).wf(),
            final(self)@ == old(self)@.put(uint_header(value as u64)),
    {
        self.write_u64(value as u64);
    }

    /// Writes an unsigned 16-bit integer using compact MessagePack encoding.
    pub fn write_u16(&mut self, value: u16)
        requires
            old(self).wf(),
        ensures
            final(self).wf(),
            final(self)@ == old(self)@.put(uint_header(value as u64)),
    {
        self.write_u64(value as u64);
    }

    /// Writes an unsigned 32-bit integer using compact MessagePack encoding.
    pub fn write_u32(&mut self, value: u32)
        requires
            old(self).wf(),
        ensures
            final(self).wf(),
            final(self)@ == old(self)@.put(uint_header(value as u64)),
    {
        self.write_u64(value as u64);
    }

    /// Writes a signed integer using the smallest MessagePack representation.
    pub fn write_i64(&mut self, value: i64)
        requires
            old(self).wf(),
        ensures
            final(self).wf(),
            final(self)@ == old(self)@.put(int_header(value)),
    {
        proof {
            lemma_pow256_values();
        }
        if value >= 0 {
            self.write_u64(value as u64);
        } else if value >= -32 {
            self.write_byte((value + 256) as u8);
        } else if value >= -128 {
            let h = header2(0xd0, (value + 256) as u8);
            self.write_header(h.as_slice());
        } else if value >= -32768 {
            self.write_header_with_value(0xd1, (value + 0x1_0000) as u64, 2);
        } else if value >= -0x8000_0000 {
            self.write_header_with_value(0xd2, (value + 0x1_0000_0000) as u64, 4);
        } else {
            self.write_header_with_value(0xd3, i64_bits(value), 8);
        }
    }

    /// Alias for [`Writer::write_i64`].
    pub fn write_int(&mut self, value: i64)
        requires
            old(self).wf(),
        ensures
            final(self).wf(),
            final(self)@ == old(self)@.put(int_header(value)),
    {
        self.write_i64(value);
    }

    /// Writes a signed 8-bit integer using compact MessagePack encoding.
    pub fn write_i8(&mut self, value: i8)
        requires
            old(self).wf(),
        ensures
            final(self).wf(),
            final(self)@ == old(self)@.put(int_header(value as i64)),
    {
        self.write_i64(value as i64);
    }

    /// Writes a signed 16-bit integer using compact MessagePack encoding.
    pub fn write_i16(&mut self, value: i16)
        requires
            old(self).wf(),
        ensures
            final(self).wf(),
            final(self)@ == old(self)@.put(int_header(value as i64)),
    {
        self.write_i64(value as i64);
    }

    /// Writes a signed 32-bit integer using compact MessagePack encoding.
    pub fn write_i32(&mut self, value: i32)
        requires
            old(self).wf(),
        ensures
            final(self).wf(),
            final(self)@ == old(self)@.put(int_header(value as i64)),
    {
        self.write_i64(value as i64);
    }

    /// Writes a float32 marker followed by the supplied IEEE-754 bits.
    pub fn write_f32_bits(&mut self, bits: u32)
        requires
            old(self).wf(),
        ensures
            final(self).wf(),
            final(self)@ == old(self)@.put(f32_header(bits)),
    {
        self.write_header_with_value(0xca, bits as u64, 4);
    }

    /// Writes a float64 marker followed by the supplied IEEE-754 bits.
    pub fn write_f64_bits(&mut self, bits: u64)
        requires
            old(self).wf(),
        ensures
            final(self).wf(),
            final(self)@ == old(self)@.put(f64_header(bits)),
    {
        self.write_header_with_value(0xcb, bits, 8);
    }

    /// Writes an array header for `length` elements.
    pub fn write_array_header(&mut self, length: usize)
        requires
            old(self).wf(),
        ensures
            final(self).wf(),
            final(self)@ == old(self)@.put_opt(array_header(length)),
    {
        if length <= 15 {
            self.write_byte((0x90 + length) as u8);
        } else if length <= 0xffff {
            self.write_header_with_value(0xdc, length as u64, 2);
        } else if length <= 0xffff_ffff {
            self.write_header_with_value(0xdd, length as u64, 4);
        } else {
            self.flag_too_big();
        }
    }

    /// Alias for [`Writer::write_array_header`].
    pub fn write_array(&mut self, length: usize)
        requires
            old(self).wf(),
        ensures
            final(self).wf(),
            final(self)@ == old(self)@.put_opt(array_header(length)),
    {
        self.write_array_header(length);
    }

    /// Writes a map header for `length` key-value pairs.
    pub fn write_map_header(&mut self, length: usize)
        requires
            old(self).wf(),
        ensures
            final(self).wf(),
            final(self)@ == old(self)@.put_opt(map_header(length)),
    {
        if length <= 15 {
            self.write_byte((0x80 + length) as u8);
        } else if length <= 0xffff {
            self.write_header_with_value(0xde, length as u64, 2);
        } else if length <= 0xffff_ffff {
            self.write_header_with_value(0xdf, length as u64, 4);
        } else {
            self.flag_too_big();
        }
    }

    /// Alias for [`Writer::write_map_header`].
    pub fn write_map(&mut self, length: usize)
        requires
            old(self).wf(),
        ensures
            final(self).wf(),
            final(self)@ == old(self)@.put_opt(map_header(length)),
    {
        self.write_map_header(length);
    }

    /// Writes a string header for a byte string of `length` bytes.
    pub fn write_str_header(&mut self, length: usize)
        requires
            old(self).wf(),
        ensures
            final(self).wf(),
            final(self)@ == old(self)@.put_opt(str_header(length)),
    {
        if length <= 31 {
            self.write_byte((0xa0 + length) as u8);
        } else if length <= 0xff {
            let h = header2(0xd9, length as u8);
            self.write_header(h.as_slice());
        } else if length <= 0xffff {
            self.write_header_with_value(0xda, length as u64, 2);
        } else if length <= 0xffff_ffff {
            self.write_header_with_value(0xdb, length as u64, 4);
        } else {
            self.flag_too_big();
        }
    }

    /// Writes a string header in the older MessagePack format, which never
    /// uses `str8`.
    pub fn write_str_header_v4(&mut self, length: usize)
        requires
            old(self).wf(),
        ensures
            final(self).wf(),
            final(self)@ == old(self)@.put_opt(str_header_v4(length)),
    {
        if length <= 31 {
            self.write_byte((0xa0 + length) as u8);
        } else if length <= 0xffff {
            self.write_header_with_value(0xda, length as u64, 2);
        } else if length <= 0xffff_ffff {
            self.write_header_with_value(0xdb, length as u64, 4);
        } else {
            self.flag_too_big();
        }
    }

    /// Writes a binary header for `length` bytes.
    pub fn write_bin_header(&mut self, length: usize)
        requires
            old(self).wf(),
        ensures
            final(self).wf(),
            final(self)@ == old(self)@.put_opt(bin_header(length)),
    {
        if length <= 0xff {
            let h = header2(0xc4, length as u8);
            self.write_header(h.as_slice());
        } else if length <= 0xffff {
            self.write_header_with_value(0xc5, length as u64, 2);
        } else if length <= 0xffff_ffff {
            self.write_header_with_value(0xc6, length as u64, 4);
        } else {
            self.flag_too_big();
        }
    }

    /// Writes an extension header using the shortest MessagePack encoding.
    pub fn write_ext_header(&mut self, ext_type: i8, length: usize)
        requires
            old(self).wf(),
        ensures
            final(self).wf(),
            final(self)@ == old(self)@.put_opt(ext_header(ext_type, length)),
    {
        let tb = ext_type_byte_of(ext_type);
        if length == 1 {
            let h = header2(0xd4, tb);
            self.write_header(h.as_slice());
        } else if length == 2 {
            let h = header2(0xd5, tb);
            self.write_header(h.as_slice());
        } else if length == 4 {
            let h = header2(0xd6, tb);
            self.write_header(h.as_slice());
        } else if length == 8 {
            let h = header2(0xd7, tb);
            self.write_header(h.as_slice());
        } else if length == 16 {
            let h = header2(0xd8, tb);
            self.write_header(h.as_slice());
        } else if length <= 0xff {
            let mut h = header2(0xc7, length as u8);
            h.push(tb);
            assert(h@ =~= seq![0xc7u8, length as u8, tb]);
            self.write_header(h.as_slice());
        } else if length <= 0xffff {
            let mut h = header_with_value(0xc8, length as u64, 2);
            h.push(tb);
            assert(h@ =~= seq![0xc8u8] + be_bytes(length as nat, 2) + seq![tb]);
            self.write_header(h.as_slice());
        } else if length <= 0xffff_ffff {
            let mut h = header_with_value(0xc9, length as u64, 4);
            h.push(tb);
            assert(h@ =~= seq![0xc9u8] + be_bytes(length as nat, 4) + seq![tb]);
            self.write_header(h.as_slice());
        } else {
            self.flag_too_big();
        }
    }

    /// Writes an extension header and payload.
    pub fn write_ext(&mut self, ext_type: i8, value: &[u8])
        requires
            old(self).wf(),
        ensures
            final(self).wf(),
            final(self)@ == old(self)@.put_opt(ext_header(ext_type, value@.len() as usize)).put_bytes(
                value@,
            ),
    {
        self.write_ext_header(ext_type, value.len());
        self.write_bytes(value);
    }

    /// Writes a MessagePack timestamp extension.
    pub fn write_timestamp(&mut self, seconds: i64, nanoseconds: u32)
        requires
            old(self).wf(),
        ensures
            final(self).wf(),
            final(self)@ == old(self)@.put_timestamp(seconds, nanoseconds),
    {
        if nanoseconds > TIMESTAMP_NANOSECONDS_MAX {
            if self.error == Error::NoError {
                self.error = Error::Bug;
            }
            return ;
        }
        proof {
            lemma_pow256_values();
        }
        if seconds >= 0 && seconds <= 0xffff_ffff && nanoseconds == 0 {
            let mut h = header2(0xd6, 0xff);
            let tail = be_encode(seconds as u64, 4);
            append_slice(&mut h, tail.as_slice());
            self.write_header(h.as_slice());
        } else if seconds >= 0 && seconds < 0x4_0000_0000 {
            let packed: u64 = (nanoseconds as u64) * 0x4_0000_0000 + seconds as u64;
            let mut h = header2(0xd7, 0xff);
            let tail = be_encode(packed, 8);
            append_slice(&mut h, tail.as_slice());
            self.write_header(h.as_slice());
        } else {
            let mut h = header2(0xc7, 12);
            h.push(0xff);
            let nanos = be_encode(nanoseconds as u64, 4);
            append_slice(&mut h, nanos.as_slice());
            let secs = be_encode(i64_bits(seconds), 8);
            append_slice(&mut h, secs.as_slice());
            proof {
                assert(h@ =~= seq![0xc7u8, 12u8, 0xffu8] + be_bytes(nanoseconds as nat, 4)
                    + be_bytes(twos(seconds as int, 8), 8));
            }
            self.write_header(h.as_slice());
        }
    }

    /// Writes a string header and its supplied bytes (UTF-8 is not checked).
    pub fn write_str(&mut self, value: &[u8])
        requires
            old(self).wf(),
        ensures
            final(self).wf(),
            final(self)@ == old(self)@.put_opt(str_header(value@.len() as usize)).put_bytes(
                value@,
            ),
    {
        self.write_str_header(value.len());
        self.write_bytes(value);
    }

    /// Writes a binary header and its supplied bytes.
    pub fn write_bin(&mut self, value: &[u8])
        requires
            old(self).wf(),
        ensures
            final(self).wf(),
            final(self)@ == old(self)@.put_opt(bin_header(value@.len() as usize)).put_bytes(
                value@,
            ),
    {
        self.write_bin_header(value.len());
        self.write_bytes(value);
    }

    /// Writes raw payload bytes, stopping at the first byte that does not fit.
    pub fn write_bytes(&mut self, bytes: &[u8])
        requires
            old(self).wf(),
        ensures
            final(self).wf(),
            final(self)@ == old(self)@.put_bytes(bytes@),
    {
        if self.error != Error::NoError || bytes.len() == 0 {
            return ;
        }
        let available = self.buffer.len() - self.position;
        let n = if bytes.len() <= available {
            bytes.len()
        } else {
            available
        };
        if n > 0 {
            let part = slice_subrange(bytes, 0, n);
            self.write_header(part);
        }
        if n < bytes.len() {
            self.error = Error::TooBig;
        }
        proof {
            if n == 0 {
                assert(bytes@.subrange(0, 0) =~= Seq::<u8>::empty());
                assert(old(self)@.written + Seq::<u8>::empty() =~= old(self)@.written);
            }
        }
    }
}

/// The state of a growable writer: the bytes written so far and the sticky error.
pub struct GrowView {
    pub bytes: Seq<u8>,
    pub error: Error,
}

impl GrowView {
    pub open spec fn flag(self, e: Error) -> GrowView {
        if self.error == Error::NoError && e != Error::NoError {
            GrowView { bytes: self.bytes, error: e }
        } else {
            self
        }
    }

    /// Appending bytes unless an error is recorded.
    pub open spec fn append(self, b: Seq<u8>) -> GrowView {
        if self.error == Error::NoError {
            GrowView { bytes: self.bytes + b, error: self.error }
        } else {
            self
        }
    }

    /// Appending a header that may not exist (a length beyond `u32::MAX`).
    pub open spec fn append_opt(self, h: Option<Seq<u8>>) -> GrowView {
        match h {
            Some(h) => self.append(h),
            None => self.flag(Error::TooBig),
        }
    }

    /// Appending a timestamp; an out-of-range nanosecond part records `Bug`.
    pub open spec fn append_timestamp(self, seconds: i64, nanoseconds: u32) -> GrowView {
        if !timestamp_valid(nanoseconds) {
            self.flag(Error::Bug)
        } else {
            self.append(timestamp_header(seconds, nanoseconds))
        }
    }

    pub open spec fn empty() -> GrowView {
        GrowView { bytes: Seq::empty(), error: Error::NoError }
    }
}

/// A writer that appends to a vector, growing it as needed.
#[derive(Debug)]
pub struct GrowableWriter {
    bytes: Vec<u8>,
    error: Error,
}

impl View for GrowableWriter {
    type V = GrowView;

    closed spec fn view(&self) -> GrowView {
        GrowView { bytes: self.bytes@, error: self.error }
    }
}

impl Default for GrowableWriter {
    fn default() -> (g: Self)
        ensures
            g@ == GrowView::empty(),
    {
        GrowableWriter::new()
    }
}

/// A scratch writer large enough for any single header.
fn scratch() -> (w: Writer)
    ensures
        w.wf(),
        w@ == (WriterView { written: Seq::empty(), capacity: 16, error: Error::NoError }),
{
    Writer::new(vec![0u8; 16])
}

impl GrowableWriter {
    pub fn new() -> (g: Self)
        ensures
            g@ == GrowView::empty(),
    {
        GrowableWriter { bytes: Vec::new(), error: Error::NoError }
    }

    pub fn with_capacity(capacity: usize) -> (g: Self)
        ensures
            g@ == GrowView::empty(),
    {
        GrowableWriter { bytes: Vec::with_capacity(capacity), error: Error::NoError }
    }

    pub fn error(&self) -> (e: Error)
        ensures
            e == self@.error,
    {
        self.error
    }

    pub fn as_slice(&self) -> (s: &[u8])
        ensures
            s@ == self@.bytes,
    {
        self.bytes.as_slice()
    }

    /// The bytes written, or the sticky error.
    pub fn into_vec(self) -> (r: Result<Vec<u8>, Error>)
        ensures
            match r {
                Ok(v) => self@.error == Error::NoError && v@ == self@.bytes,
                Err(e) => self@.error != Error::NoError && e == self@.error,
            },
    {
        if self.error == Error::NoError {
            Ok(self.bytes)
        } else {
            Err(self.error)
        }
    }

    pub fn write_nil(&mut self)
        ensures
            final(self)@ == old(self)@.append(seq![0xc0u8]),
    {
        if self.error != Error::NoError {
            return ;
        }
        let mut w = scratch();
        w.write_nil();
        self.encode(&w);
    }

    pub fn write_bool(&mut self, value: bool)
        ensures
            final(self)@ == old(self)@.append(seq![if value { 0xc3u8 } else { 0xc2u8 }]),
    {
        if self.error != Error::NoError {
            return ;
        }
        let mut w = scratch();
        w.write_bool(value);
        self.encode(&w);
    }

    pub fn write_u64(&mut self, value: u64)
        ensures
            final(self)@ == old(self)@.append(uint_header(value)),
    {
        if self.error != Error::NoError {
            return ;
        }
        let mut w = scratch();
        w.write_u64(value);
        self.encode(&w);
    }

    pub fn write_i64(&mut self, value: i64)
        ensures
            final(self)@ == old(self)@.append(int_header(value)),
    {
        if self.error != Error::NoError {
            return ;
        }
        let mut w = scratch();
        w.write_i64(value);
        self.encode(&w);
    }

    pub fn write_array_header(&mut self, count: usize)
        ensures
            final(self)@ == old(self)@.append_opt(array_header(count)),
    {
        if self.error != Error::NoError {
            return ;
        }
        let mut w = scratch();
        w.write_array_header(count);
        self.encode(&w);
    }

    pub fn write_map_header(&mut self, count: usize)
        ensures
            final(self)@ == old(self)@.append_opt(map_header(count)),
    {
        if self.error != Error::NoError {
            return ;
        }
        let mut w = scratch();
        w.write_map_header(count);
        self.encode(&w);
    }

    pub fn write_str(&mut self, value: &[u8])
        ensures
            final(self)@ == old(self)@.append_opt(str_header(value@.len() as usize)).append(
                value@,
            ),
    {
        if self.error == Error::NoError {
            let mut w = scratch();
            w.write_str_header(value.len());
            self.encode(&w);
        }
        self.append(value);
    }

    pub fn write_bin(&mut self, value: &[u8])
        ensures
            final(self)@ == old(self)@.append_opt(bin_header(value@.len() as usize)).append(
                value@,
            ),
    {
        if self.error == Error::NoError {
            let mut w = scratch();
            w.write_bin_header(value.len());
            self.encode(&w);
        }
        self.append(value);
    }

    pub fn write_ext(&mut self, ext_type: i8, value: &[u8])
        ensures
            final(self)@ == old(self)@.append_opt(ext_header(ext_type, value@.len() as usize)).append(
                value@,
            ),
    {
        if self.error == Error::NoError {
            let mut w = scratch();
            w.write_ext_header(ext_type, value.len());
            self.encode(&w);
        }
        self.append(value);
    }

    pub fn write_timestamp(&mut self, seconds: i64, nanoseconds: u32)
        ensures
            final(self)@ == old(self)@.append_timestamp(seconds, nanoseconds),
    {
        if self.error != Error::NoError {
            return ;
        }
        let mut w = scratch();
        w.write_timestamp(seconds, nanoseconds);
        self.encode(&w);
    }

    /// Writes a float32 given by its bits.
    pub fn write_f32_bits(&mut self, bits: u32)
        ensures
            final(self)@ == old(self)@.append(f32_header(bits)),
    {
        if self.error != Error::NoError {
            return ;
        }
        let mut w = scratch();
        w.write_f32_bits(bits);
        self.encode(&w);
    }

    /// Writes a float64 given by its bits.
    pub fn write_f64_bits(&mut self, bits: u64)
        ensures
            final(self)@ == old(self)@.append(f64_header(bits)),
    {
        if self.error != Error::NoError {
            return ;
        }
        let mut w = scratch();
        w.write_f64_bits(bits);
        self.encode(&w);
    }

    /// Writes a string header for `length` bytes; the payload follows with
    /// `write_bytes`.
    pub fn write_str_header(&mut self, length: usize)
        ensures
            final(self)@ == old(self)@.append_opt(str_header(length)),
    {
        if self.error != Error::NoError {
            return ;
        }
        let mut w = scratch();
        w.write_str_header(length);
        self.encode(&w);
    }

    /// Writes a binary header for `length` bytes; the payload follows with
    /// `write_bytes`.
    pub fn write_bin_header(&mut self, length: usize)
        ensures
            final(self)@ == old(self)@.append_opt(bin_header(length)),
    {
        if self.error != Error::NoError {
            return ;
        }
        let mut w = scratch();
        w.write_bin_header(length);
        self.encode(&w);
    }

    /// Writes an extension header of type `ext_type` for `length` bytes; the
    /// payload follows with `write_bytes`.
    pub fn write_ext_header(&mut self, ext_type: i8, length: usize)
        ensures
            final(self)@ == old(self)@.append_opt(ext_header(ext_type, length)),
    {
        if self.error != Error::NoError {
            return ;
        }
        let mut w = scratch();
        w.write_ext_header(ext_type, length);
        self.encode(&w);
    }

    /// Appends payload bytes after a header.
    pub fn write_bytes(&mut self, bytes: &[u8])
        ensures
            final(self)@ == old(self)@.append(bytes@),
    {
        self.append(bytes);
    }

    fn append(&mut self, bytes: &[u8])
        ensures
            final(self)@ == old(self)@.append(bytes@),
    {
        if self.error == Error::NoError {
            append_slice(&mut self.bytes, bytes);
        }
    }

    /// Takes over what a scratch writer encoded, and its error.
    fn encode(&mut self, writer: &Writer)
        requires
            writer.wf(),
            old(self)@.error == Error::NoError,
        ensures
            final(self)@ == (GrowView { bytes: old(self)@.bytes + writer@.written, error: writer@.error }),
    {
        self.error = writer.error();
        append_slice(&mut self.bytes, writer.written());
    }
}

/// Kinds of compound values that a tracker follows.
#[derive(Debug, Clone, Copy, PartialEq, Eq, Structural)]
pub enum TrackKind {
    Array,
    Mapping,
    Str,
    Bin,
    Ext,
}

/// Whether a compound of this kind is filled with payload bytes.
pub open spec fn is_byte_kind(k: TrackKind) -> bool {
    k == TrackKind::Str || k == TrackKind::Bin || k == TrackKind::Ext
}

/// One open compound: its kind and how many elements or bytes it still expects.
pub struct TrackFrame {
    pub kind: TrackKind,
    pub left: nat,
}

#[derive(Debug, Clone, Copy)]
struct TrackElement {
    kind: TrackKind,
    left: usize,
}

/// How many elements or bytes a compound of `kind` and `count` expects: a map
/// expects a key and a value per pair (saturating at `usize::MAX`).
pub open spec fn expected_left(kind: TrackKind, count: usize) -> nat {
    if kind == TrackKind::Mapping {
        if 2 * count <= usize::MAX {
            (2 * count) as nat
        } else {
            usize::MAX as nat
        }
    } else {
        count as nat
    }
}

/// Recording one element in the innermost open compound.
pub open spec fn track_element(s: Seq<TrackFrame>) -> (Seq<TrackFrame>, Result<(), Error>) {
    if s.len() == 0 {
        (s, Ok(()))
    } else if is_byte_kind(s.last().kind) || s.last().left == 0 {
        (s, Err(Error::Bug))
    } else {
        (
            s.update(s.len() - 1, TrackFrame { kind: s.last().kind, left: (s.last().left - 1) as nat }),
            Ok(()),
        )
    }
}

/// Recording `count` payload bytes in the innermost open compound.
pub open spec fn track_bytes(s: Seq<TrackFrame>, count: usize) -> (Seq<TrackFrame>, Result<(), Error>) {
    if s.len() == 0 {
        (s, Err(Error::Bug))
    } else if !is_byte_kind(s.last().kind) || count > s.last().left {
        (s, Err(Error::Bug))
    } else {
        (
            s.update(
                s.len() - 1,
                TrackFrame { kind: s.last().kind, left: (s.last().left - count) as nat },
            ),
            Ok(()),
        )
    }
}

/// Closing the innermost open compound, which must be of `kind` and complete.
pub open spec fn track_pop(s: Seq<TrackFrame>, kind: TrackKind) -> (Seq<TrackFrame>, Result<(), Error>) {
    if s.len() > 0 && s.last().kind == kind && s.last().left == 0 {
        (s.drop_last(), Ok(()))
    } else {
        (s, Err(Error::Bug))
    }
}

/// Compound write tracker: checks that each array, map, str, bin and ext
/// receives exactly what its header announced.
#[derive(Debug)]
pub struct WriteTracker {
    stack: Vec<TrackElement>,
}

impl View for WriteTracker {
    type V = Seq<TrackFrame>;

    closed spec fn view(&self) -> Seq<TrackFrame> {
        self.stack@.map_values(|e: TrackElement| TrackFrame { kind: e.kind, left: e.left as nat })
    }
}

impl Default for WriteTracker {
    fn default() -> (t: Self)
        ensures
            t@ == Seq::<TrackFrame>::empty(),
    {
        let t = WriteTracker { stack: Vec::new() };
        assert(t@ =~= Seq::<TrackFrame>::empty());
        t
    }
}

impl WriteTracker {
    /// Opens a compound of `kind` announcing `count` elements (pairs for a
    /// map) or bytes.
    pub fn push(&mut self, kind: TrackKind, count: usize)
        ensures
            final(self)@ == old(self)@.push(TrackFrame { kind, left: expected_left(kind, count) }),
    {
        let left = if kind == TrackKind::Mapping {
            if count <= usize::MAX / 2 {
                count * 2
            } else {
                usize::MAX
            }
        } else {
            count
        };
        self.stack.push(TrackElement { kind, left });
        assert(self@ =~= old(self)@.push(TrackFrame { kind, left: expected_left(kind, count) }));
    }

    /// Records one element written into the innermost array or map.
    pub fn element(&mut self) -> (r: Result<(), Error>)
        ensures
            (final(self)@, r) == track_element(old(self)@),
    {
        let n = self.stack.len();
        if n == 0 {
            return Ok(());
        }
        let top = self.stack[n - 1];
        if top.kind == TrackKind::Str || top.kind == TrackKind::Bin || top.kind == TrackKind::Ext
            || top.left == 0 {
            return Err(Error::Bug);
        }
        self.stack.set(n - 1, TrackElement { kind: top.kind, left: top.left - 1 });
        assert(self@ =~= track_element(old(self)@).0);
        Ok(())
    }

    /// Records `count` payload bytes written into the innermost str, bin or ext.
    pub fn bytes(&mut self, count: usize) -> (r: Result<(), Error>)
        ensures
            (final(self)@, r) == track_bytes(old(self)@, count),
    {
        let n = self.stack.len();
        if n == 0 {
            return Err(Error::Bug);
        }
        let top = self.stack[n - 1];
        if !(top.kind == TrackKind::Str || top.kind == TrackKind::Bin || top.kind == TrackKind::Ext)
            || count > top.left {
            return Err(Error::Bug);
        }
        self.stack.set(n - 1, TrackElement { kind: top.kind, left: top.left - count });
        assert(self@ =~= track_bytes(old(self)@, count).0);
        Ok(())
    }

    /// Closes the innermost compound, which must be of `kind` and complete.
    pub fn pop(&mut self, kind: TrackKind) -> (r: Result<(), Error>)
        ensures
            (final(self)@, r) == track_pop(old(self)@, kind),
    {
        let n = self.stack.len();
        if n > 0 && self.stack[n - 1].kind == kind && self.stack[n - 1].left == 0 {
            self.stack.pop();
            assert(self@ =~= old(self)@.drop_last());
            Ok(())
        } else {
            Err(Error::Bug)
        }
    }

    /// Succeeds when every opened compound was closed.
    pub fn finish(self) -> (r: Result<(), Error>)
        ensures
            r == (if self@.len() == 0 {
                Ok::<(), Error>(())
            } else {
                Err(Error::Bug)
            }),
    {
        if self.stack.len() == 0 {
            Ok(())
        } else {
            Err(Error::Bug)
        }
    }
}

/// One open compound of a builder: its kind, how many values it holds, and
/// their encodings.
pub struct FrameView {
    pub kind: TrackKind,
    pub elements: nat,
    pub bytes: Seq<u8>,
}

/// The state of a builder: its open compounds, innermost last, and the output.
pub struct BuilderView {
    pub frames: Seq<FrameView>,
    pub output: GrowView,
}

/// The encoding of a string value; empty when its length has no header.
pub open spec fn str_value(v: Seq<u8>) -> Seq<u8> {
    match str_header(v.len() as usize) {
        Some(h) => h + v,
        None => Seq::empty(),
    }
}

impl BuilderView {
    /// Adding one encoded value to the innermost open compound, or to the
    /// output when none is open.
    pub open spec fn append_value(self, b: Seq<u8>) -> BuilderView {
        if self.frames.len() > 0 {
            let top = self.frames.last();
            BuilderView {
                frames: self.frames.update(
                    self.frames.len() - 1,
                    FrameView { kind: top.kind, elements: top.elements + 1, bytes: top.bytes + b },
                ),
                output: self.output,
            }
        } else {
            BuilderView { frames: self.frames, output: self.output.append(b) }
        }
    }

    /// The innermost open compound can count one more value.
    pub open spec fn can_append(self) -> bool {
        self.frames.len() > 0 ==> self.frames.last().elements < usize::MAX
    }

    pub open spec fn open_frame(self, kind: TrackKind) -> BuilderView {
        BuilderView {
            frames: self.frames.push(FrameView { kind, elements: 0, bytes: Seq::empty() }),
            output: self.output,
        }
    }

    /// Closing the innermost compound, which must be of `kind` (with an even
    /// number of values for a map): its header, now that the count is known,
    /// and its values become one value of the enclosing compound.
    pub open spec fn complete(self, kind: TrackKind) -> (BuilderView, Result<(), Error>) {
        if self.frames.len() == 0 {
            (self, Err(Error::Bug))
        } else {
            let f = self.frames.last();
            let rest = BuilderView { frames: self.frames.drop_last(), output: self.output };
            if f.kind != kind || (kind == TrackKind::Mapping && f.elements % 2 != 0) {
                (rest, Err(Error::Bug))
            } else {
                let h = if kind == TrackKind::Mapping {
                    map_header((f.elements / 2) as usize)
                } else {
                    array_header(f.elements as usize)
                };
                (
                    rest.append_value(
                        match h {
                            Some(h) => h + f.bytes,
                            None => Seq::empty(),
                        },
                    ),
                    Ok(()),
                )
            }
        }
    }
}

#[derive(Debug)]
struct BuildFrame {
    kind: TrackKind,
    elements: usize,
    bytes: Vec<u8>,
}

/// Builder for arrays and maps whose size is not known in advance.
#[derive(Debug)]
pub struct Builder {
    frames: Vec<BuildFrame>,
    output: GrowableWriter,
}

impl View for Builder {
    type V = BuilderView;

    closed spec fn view(&self) -> BuilderView {
        BuilderView {
            frames: self.frames@.map_values(
                |f: BuildFrame| FrameView { kind: f.kind, elements: f.elements as nat, bytes: f.bytes@ },
            ),
            output: self.output@,
        }
    }
}

impl Default for Builder {
    fn default() -> (b: Self)
        ensures
            b@ == (BuilderView { frames: Seq::empty(), output: GrowView::empty() }),
    {
        Builder::new()
    }
}

impl Builder {
    pub fn new() -> (b: Self)
        ensures
            b@ == (BuilderView { frames: Seq::empty(), output: GrowView::empty() }),
    {
        let b = Builder { frames: Vec::new(), output: GrowableWriter::new() };
        assert(b@.frames =~= Seq::<FrameView>::empty());
        b
    }

    /// Opens an array whose element count is found when it is completed.
    pub fn build_array(&mut self)
        ensures
            final(self)@ == old(self)@.open_frame(TrackKind::Array),
    {
        self.frames.push(BuildFrame { kind: TrackKind::Array, elements: 0, bytes: Vec::new() });
        assert(self@.frames =~= old(self)@.open_frame(TrackKind::Array).frames);
    }

    /// Opens a map whose pair count is found when it is completed.
    pub fn build_map(&mut self)
        ensures
            final(self)@ == old(self)@.open_frame(TrackKind::Mapping),
    {
        self.frames.push(BuildFrame { kind: TrackKind::Mapping, elements: 0, bytes: Vec::new() });
        assert(self@.frames =~= old(self)@.open_frame(TrackKind::Mapping).frames);
    }

    pub fn write_nil(&mut self)
        requires
            old(self)@.can_append(),
        ensures
            final(self)@ == old(self)@.append_value(seq![0xc0u8]),
    {
        let mut encoded = GrowableWriter::new();
        encoded.write_nil();
        self.append_value(encoded.as_slice());
    }

    pub fn write_bool(&mut self, value: bool)
        requires
            old(self)@.can_append(),
        ensures
            final(self)@ == old(self)@.append_value(
                seq![if value { 0xc3u8 } else { 0xc2u8 }],
            ),
    {
        let mut encoded = GrowableWriter::new();
        encoded.write_bool(value);
        self.append_value(encoded.as_slice());
    }

    pub fn write_u64(&mut self, value: u64)
        requires
            old(self)@.can_append(),
        ensures
            final(self)@ == old(self)@.append_value(uint_header(value)),
    {
        let mut encoded = GrowableWriter::new();
        encoded.write_u64(value);
        self.append_value(encoded.as_slice());
    }

    pub fn write_i64(&mut self, value: i64)
        requires
            old(self)@.can_append(),
        ensures
            final(self)@ == old(self)@.append_value(int_header(value)),
    {
        let mut encoded = GrowableWriter::new();
        encoded.write_i64(value);
        self.append_value(encoded.as_slice());
    }

    pub fn write_str(&mut self, value: &[u8])
        requires
            old(self)@.can_append(),
        ensures
            final(self)@ == old(self)@.append_value(str_value(value@)),
    {
        let mut encoded = GrowableWriter::new();
        encoded.write_str(value);
        proof {
            if str_header(value@.len() as usize) is Some {
                assert(Seq::<u8>::empty() + str_header(value@.len() as usize)->0 + value@
                    =~= str_value(value@));
            } else {
                assert(encoded@.bytes =~= Seq::<u8>::empty());
            }
        }
        self.append_value(encoded.as_slice());
    }

    /// Closes the innermost compound, which must be an array.
    pub fn complete_array(&mut self) -> (r: Result<(), Error>)
        requires
            old(self)@.frames.len() > 1 ==> old(self)@.frames[old(self)@.frames.len() - 2].elements
                < usize::MAX,
        ensures
            (final(self)@, r) == old(self)@.complete(TrackKind::Array),
    {
        self.complete(TrackKind::Array)
    }

    /// Closes the innermost compound, which must be a map.
    pub fn complete_map(&mut self) -> (r: Result<(), Error>)
        requires
            old(self)@.frames.len() > 1 ==> old(self)@.frames[old(self)@.frames.len() - 2].elements
                < usize::MAX,
        ensures
            (final(self)@, r) == old(self)@.complete(TrackKind::Mapping),
    {
        self.complete(TrackKind::Mapping)
    }

    /// The encoded output, once every compound is complete.
    pub fn finish(self) -> (r: Result<Vec<u8>, Error>)
        ensures
            match r {
                Ok(v) => self@.frames.len() == 0 && self@.output.error == Error::NoError && v@
                    == self@.output.bytes,
                Err(e) => (self@.frames.len() != 0 && e == Error::Bug) || (self@.frames.len() == 0
                    && self@.output.error != Error::NoError && e == self@.output.error),
            },
    {
        if self.frames.len() == 0 {
            self.output.into_vec()
        } else {
            Err(Error::Bug)
        }
    }

    fn append_value(&mut self, bytes: &[u8])
        requires
            old(self)@.can_append(),
        ensures
            final(self)@ == old(self)@.append_value(bytes@),
    {
        if self.frames.len() > 0 {
            let ghost before = self@;
            let mut frame = self.frames.pop().unwrap();
            append_slice(&mut frame.bytes, bytes);
            frame.elements = frame.elements + 1;
            self.frames.push(frame);
            assert(self@.frames =~= before.append_value(bytes@).frames);
        } else {
            self.output.append(bytes);
        }
    }

    fn complete(&mut self, kind: TrackKind) -> (r: Result<(), Error>)
        requires
            old(self)@.frames.len() > 1 ==> old(self)@.frames[old(self)@.frames.len() - 2].elements
                < usize::MAX,
        ensures
            (final(self)@, r) == old(self)@.complete(kind),
    {
        let ghost before = self@;
        let frame = match self.frames.pop() {
            Some(frame) => frame,
            None => {
                return Err(Error::Bug);
            },
        };
        assert(self@.frames =~= before.frames.drop_last());
        if frame.kind != kind || (kind == TrackKind::Mapping && frame.elements % 2 != 0) {
            return Err(Error::Bug);
        }
        let count = if kind == TrackKind::Mapping {
            frame.elements / 2
        } else {
            frame.elements
        };
        let mut encoded = GrowableWriter::new();
        if kind == TrackKind::Mapping {
            encoded.write_map_header(count);
        } else {
            encoded.write_array_header(count);
        }
        encoded.append(frame.bytes.as_slice());
        proof {
            let h = if kind == TrackKind::Mapping {
                map_header(count)
            } else {
                array_header(count)
            };
            if h is Some {
                assert(encoded@.bytes =~= h->0 + frame.bytes@);
            } else {
                assert(encoded@.bytes =~= Seq::<u8>::empty());
            }
        }
        self.append_value(encoded.as_slice());
        Ok(())
    }
}


/// The tracker after `k` elements were recorded.
pub open spec fn track_elements(s: Seq<TrackFrame>, k: nat) -> Seq<TrackFrame>
    decreases k,
{
    if k == 0 {
        s
    } else {
        track_element(track_elements(s, (k - 1) as nat)).0
    }
}

proof fn lemma_track_elements(s: Seq<TrackFrame>, kind: TrackKind, left: nat, k: nat)
    requires
        !is_byte_kind(kind),
        k <= left,
    ensures
        track_elements(s.push(TrackFrame { kind, left }), k) == s.push(
            TrackFrame { kind, left: (left - k) as nat },
        ),
    decreases k,
{
    if k > 0 {
        lemma_track_elements(s, kind, left, (k - 1) as nat);
        let s1 = s.push(TrackFrame { kind, left: (left - (k - 1)) as nat });
        assert(s1.update(s1.len() - 1, TrackFrame { kind, left: (left - k) as nat }) =~= s.push(
            TrackFrame { kind, left: (left - k) as nat },
        ));
    }
}

/// Opening an array or a map, recording as many elements as its header
/// announced (a key and a value per pair of a map), and closing it succeeds
/// at every step and leaves the tracker as it was before the compound.
pub proof fn law_tracker_compound(s: Seq<TrackFrame>, kind: TrackKind, count: usize)
    requires
        kind == TrackKind::Array || kind == TrackKind::Mapping,
    ensures
        ({
            let opened = s.push(TrackFrame { kind, left: expected_left(kind, count) });
            &&& forall|k: nat| k < expected_left(kind, count) ==> #[trigger] track_element(
                track_elements(opened, k),
            ).1 == Ok::<(), Error>(())
            &&& track_pop(track_elements(opened, expected_left(kind, count)), kind) == (
                s,
                Ok::<(), Error>(()),
            )
        }),
{
    let left = expected_left(kind, count);
    let opened = s.push(TrackFrame { kind, left });
    assert forall|k: nat| k < left implies #[trigger] track_element(track_elements(opened, k)).1
        == Ok::<(), Error>(()) by {
        lemma_track_elements(s, kind, left, k);
    }
    lemma_track_elements(s, kind, left, left);
    assert(s.push(TrackFrame { kind, left: 0 }).drop_last() =~= s);
}

/// Opening a str, bin or ext of `count` bytes, recording them in two parts,
/// and closing it succeeds at every step and leaves the tracker as it was.
pub proof fn law_tracker_bytes(s: Seq<TrackFrame>, kind: TrackKind, count: usize, first: usize)
    requires
        is_byte_kind(kind),
        first <= count,
    ensures
        ({
            let opened = s.push(TrackFrame { kind, left: count as nat });
            let (s1, r1) = track_bytes(opened, first);
            let (s2, r2) = track_bytes(s1, (count - first) as usize);
            &&& r1 == Ok::<(), Error>(())
            &&& r2 == Ok::<(), Error>(())
            &&& track_pop(s2, kind) == (s, Ok::<(), Error>(()))
        }),
{
    let opened = s.push(TrackFrame { kind, left: count as nat });
    let s1 = track_bytes(opened, first).0;
    assert(s1 =~= s.push(TrackFrame { kind, left: (count - first) as nat }));
    let s2 = track_bytes(s1, (count - first) as usize).0;
    assert(s2 =~= s.push(TrackFrame { kind, left: 0 }));
    assert(s2.drop_last() =~= s);
}

/// The values `vs`, one after another.
pub open spec fn concat(vs: Seq<Seq<u8>>) -> Seq<u8>
    decreases vs.len(),
{
    if vs.len() == 0 {
        Seq::empty()
    } else {
        concat(vs.drop_last()) + vs.last()
    }
}

/// A builder after appending the values `vs` in order.
pub open spec fn append_values(b: BuilderView, vs: Seq<Seq<u8>>) -> BuilderView
    decreases vs.len(),
{
    if vs.len() == 0 {
        b
    } else {
        append_values(b, vs.drop_last()).append_value(vs.last())
    }
}

proof fn lemma_append_values(b: BuilderView, kind: TrackKind, vs: Seq<Seq<u8>>)
    ensures
        append_values(b.open_frame(kind), vs) == (BuilderView {
            frames: b.frames.push(FrameView { kind, elements: vs.len(), bytes: concat(vs) }),
            output: b.output,
        }),
    decreases vs.len(),
{
    if vs.len() > 0 {
        lemma_append_values(b, kind, vs.drop_last());
        let f = b.frames.push(
            FrameView { kind, elements: (vs.len() - 1) as nat, bytes: concat(vs.drop_last()) },
        );
        assert(f.update(f.len() - 1, FrameView { kind, elements: vs.len(), bytes: concat(vs) })
            =~= b.frames.push(FrameView { kind, elements: vs.len(), bytes: concat(vs) }));
    } else {
        assert(concat(vs) =~= Seq::<u8>::empty());
    }
}

/// Building an array whose length is not known in advance: opening it,
/// adding the values `vs` and completing it gives one value, the array
/// header for their count followed by the values, added where the array
/// was opened.
pub proof fn law_builder_array(b: BuilderView, vs: Seq<Seq<u8>>)
    ensures
        append_values(b.open_frame(TrackKind::Array), vs).complete(TrackKind::Array) == (
            b.append_value(
                match array_header(vs.len() as usize) {
                    Some(h) => h + concat(vs),
                    None => Seq::empty(),
                },
            ),
            Ok::<(), Error>(()),
        ),
{
    lemma_append_values(b, TrackKind::Array, vs);
    let f = b.frames.push(FrameView { kind: TrackKind::Array, elements: vs.len(), bytes: concat(vs) });
    assert(f.drop_last() =~= b.frames);
}

/// Building a map whose size is not known in advance: with an even number
/// of keys and values, completing it gives the map header for their pairs
/// followed by them; with an odd number it fails with `Bug` and drops them.
pub proof fn law_builder_map(b: BuilderView, vs: Seq<Seq<u8>>)
    ensures
        vs.len() % 2 == 0 ==> append_values(b.open_frame(TrackKind::Mapping), vs).complete(
            TrackKind::Mapping,
        ) == (
            b.append_value(
                match map_header((vs.len() / 2) as usize) {
                    Some(h) => h + concat(vs),
                    None => Seq::empty(),
                },
            ),
            Ok::<(), Error>(()),
        ),
        vs.len() % 2 != 0 ==> append_values(b.open_frame(TrackKind::Mapping), vs).complete(
            TrackKind::Mapping,
        ) == (b, Err::<(), Error>(Error::Bug)),
{
    lemma_append_values(b, TrackKind::Mapping, vs);
    let f = b.frames.push(
        FrameView { kind: TrackKind::Mapping, elements: vs.len(), bytes: concat(vs) },
    );
    assert(f.drop_last() =~= b.frames);
}

/// A writer that has recorded an error keeps it, and ignores every later
/// write.
pub proof fn law_writer_sticky(
    w: WriterView,
    h: Seq<u8>,
    oh: Option<Seq<u8>>,
    b: Seq<u8>,
    seconds: i64,
    nanoseconds: u32,
    e: Error,
)
    requires
        w.error != Error::NoError,
    ensures
        w.put(h) == w,
        w.put_opt(oh) == w,
        w.put_bytes(b) == w,
        w.put_timestamp(seconds, nanoseconds) == w,
        w.flag(e) == w,
{
}

/// A growable writer that has recorded an error keeps it and ignores what
/// is appended later.
pub proof fn law_grow_sticky(g: GrowView, b: Seq<u8>, oh: Option<Seq<u8>>, e: Error)
    requires
        g.error != Error::NoError,
    ensures
        g.append(b) == g,
        g.append_opt(oh) == g,
        g.flag(e) == g,
{
}

} // verus!
