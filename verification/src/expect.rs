//! Schema-typed reads on top of the reader: each function expects a given
//! kind of value and records a type error when the input holds another.

use vstd::prelude::*;
use crate::common::{Error, Number, Tag, Timestamp, TIMESTAMP_EXT_TYPE};
use vstd::string::StringSliceAdditionalSpecFns;
use vstd::utf8::valid_utf8;
use crate::reader::{
    check_utf8, check_utf8_no_null, tag_array, tag_bin, tag_bool, tag_double_bits, tag_ext,
    tag_float_bits, tag_i64, tag_map, tag_number, tag_str, tag_u64, Reader, ReaderView,
};

verus! {

/// Result of the `*_or_nil` compound expects.
#[derive(Debug, Clone, Copy, PartialEq, Eq, Structural)]
pub struct ExpectCompound {
    pub is_nil: bool,
    pub count: u32,
}

/// Keeping a decoded value only if it satisfies `ok`; otherwise a type error.
pub open spec fn then_check<T>(p: (ReaderView, Option<T>), ok: spec_fn(T) -> bool) -> (
    ReaderView,
    Option<T>,
) {
    match p.1 {
        Some(v) => if ok(v) {
            p
        } else {
            (p.0.flag(Error::Type), None)
        },
        None => p,
    }
}

/// Requiring a decoded value to equal `want`; otherwise a type error.
pub open spec fn match_step<T>(p: (ReaderView, Option<T>), want: T) -> (ReaderView, bool) {
    match p.1 {
        Some(v) => if v == want {
            (p.0, true)
        } else {
            (p.0.flag(Error::Type), false)
        },
        None => (p.0, false),
    }
}

/// Expecting an unsigned integer of at most `max`.
pub open spec fn uint_step(st: ReaderView, max: u64) -> (ReaderView, Option<u64>) {
    then_check(st.typed_step(|t: Tag| tag_u64(t)), |v: u64| v <= max)
}

/// Expecting a signed integer within `min..=max`.
pub open spec fn int_step(st: ReaderView, min: int, max: int) -> (ReaderView, Option<i64>) {
    then_check(st.typed_step(|t: Tag| tag_i64(t)), |v: i64| min <= v <= max)
}

fn type_error<T>(reader: &mut Reader<'_>) -> (r: Option<T>)
    ensures
        final(reader)@ == old(reader)@.flag(Error::Type),
        r is None,
{
    reader.flag_error(Error::Type);
    None
}

fn too_big<T>(reader: &mut Reader<'_>) -> (r: Option<T>)
    ensures
        final(reader)@ == old(reader)@.flag(Error::TooBig),
        r is None,
{
    reader.flag_error(Error::TooBig);
    None
}

fn fail_bool(reader: &mut Reader<'_>) -> (r: bool)
    ensures
        final(reader)@ == old(reader)@.flag(Error::Type),
        !r,
{
    reader.flag_error(Error::Type);
    false
}

fn fail_too_big(reader: &mut Reader<'_>) -> (r: bool)
    ensures
        final(reader)@ == old(reader)@.flag(Error::TooBig),
        !r,
{
    reader.flag_error(Error::TooBig);
    false
}

fn read_i64_value(reader: &mut Reader<'_>) -> (r: Option<i64>)
    requires
        old(reader)@.wf(),
    ensures
        final(reader)@.wf(),
        (final(reader)@, r) == old(reader)@.typed_step(|t: Tag| tag_i64(t)),
{
    reader.read_i64()
}

fn read_u64_value(reader: &mut Reader<'_>) -> (r: Option<u64>)
    requires
        old(reader)@.wf(),
    ensures
        final(reader)@.wf(),
        (final(reader)@, r) == old(reader)@.typed_step(|t: Tag| tag_u64(t)),
{
    reader.read_u64()
}

/// Expects an unsigned integer that fits in `u8`.
pub fn u8(reader: &mut Reader<'_>) -> (r: Option<u8>)
    requires
        old(reader)@.wf(),
    ensures
        final(reader)@.wf(),
        final(reader)@ == uint_step(old(reader)@, 0xff).0,
        match r {
            Some(x) => uint_step(old(reader)@, 0xff).1 == Some(x as u64),
            None => uint_step(old(reader)@, 0xff).1 is None,
        },
{
    let value = match read_u64_value(reader) {
        Some(v) => v,
        None => {
            return None;
        },
    };
    if value <= 0xff {
        Some(value as u8)
    } else {
        type_error(reader)
    }
}

/// Expects an unsigned integer that fits in `u16`.
pub fn u16(reader: &mut Reader<'_>) -> (r: Option<u16>)
    requires
        old(reader)@.wf(),
    ensures
        final(reader)@.wf(),
        final(reader)@ == uint_step(old(reader)@, 0xffff).0,
        match r {
            Some(x) => uint_step(old(reader)@, 0xffff).1 == Some(x as u64),
            None => uint_step(old(reader)@, 0xffff).1 is None,
        },
{
    let value = match read_u64_value(reader) {
        Some(v) => v,
        None => {
            return None;
        },
    };
    if value <= 0xffff {
        Some(value as u16)
    } else {
        type_error(reader)
    }
}

/// Expects an unsigned integer that fits in `u32`.
pub fn u32(reader: &mut Reader<'_>) -> (r: Option<u32>)
    requires
        old(reader)@.wf(),
    ensures
        final(reader)@.wf(),
        final(reader)@ == uint_step(old(reader)@, 0xffff_ffff).0,
        match r {
            Some(x) => uint_step(old(reader)@, 0xffff_ffff).1 == Some(x as u64),
            None => uint_step(old(reader)@, 0xffff_ffff).1 is None,
        },
{
    let value = match read_u64_value(reader) {
        Some(v) => v,
        None => {
            return None;
        },
    };
    if value <= 0xffff_ffff {
        Some(value as u32)
    } else {
        type_error(reader)
    }
}

/// Expects an unsigned integer.
pub fn u64(reader: &mut Reader<'_>) -> (r: Option<u64>)
    requires
        old(reader)@.wf(),
    ensures
        final(reader)@.wf(),
        (final(reader)@, r) == uint_step(old(reader)@, u64::MAX),
{
    read_u64_value(reader)
}

/// Expects a signed integer that fits in `i8`.
pub fn i8(reader: &mut Reader<'_>) -> (r: Option<i8>)
    requires
        old(reader)@.wf(),
    ensures
        final(reader)@.wf(),
        final(reader)@ == int_step(old(reader)@, -0x80, 0x7f).0,
        match r {
            Some(x) => int_step(old(reader)@, -0x80, 0x7f).1 == Some(x as i64),
            None => int_step(old(reader)@, -0x80, 0x7f).1 is None,
        },
{
    let value = match read_i64_value(reader) {
        Some(v) => v,
        None => {
            return None;
        },
    };
    if -0x80 <= value && value <= 0x7f {
        Some(value as i8)
    } else {
        type_error(reader)
    }
}

/// Expects a signed integer that fits in `i16`.
pub fn i16(reader: &mut Reader<'_>) -> (r: Option<i16>)
    requires
        old(reader)@.wf(),
    ensures
        final(reader)@.wf(),
        final(reader)@ == int_step(old(reader)@, -0x8000, 0x7fff).0,
        match r {
            Some(x) => int_step(old(reader)@, -0x8000, 0x7fff).1 == Some(x as i64),
            None => int_step(old(reader)@, -0x8000, 0x7fff).1 is None,
        },
{
    let value = match read_i64_value(reader) {
        Some(v) => v,
        None => {
            return None;
        },
    };
    if -0x8000 <= value && value <= 0x7fff {
        Some(value as i16)
    } else {
        type_error(reader)
    }
}

/// Expects a signed integer that fits in `i32`.
pub fn i32(reader: &mut Reader<'_>) -> (r: Option<i32>)
    requires
        old(reader)@.wf(),
    ensures
        final(reader)@.wf(),
        final(reader)@ == int_step(old(reader)@, -0x8000_0000, 0x7fff_ffff).0,
        match r {
            Some(x) => int_step(old(reader)@, -0x8000_0000, 0x7fff_ffff).1 == Some(x as i64),
            None => int_step(old(reader)@, -0x8000_0000, 0x7fff_ffff).1 is None,
        },
{
    let value = match read_i64_value(reader) {
        Some(v) => v,
        None => {
            return None;
        },
    };
    if -0x8000_0000 <= value && value <= 0x7fff_ffff {
        Some(value as i32)
    } else {
        type_error(reader)
    }
}

/// Expects a signed integer.
pub fn i64(reader: &mut Reader<'_>) -> (r: Option<i64>)
    requires
        old(reader)@.wf(),
    ensures
        final(reader)@.wf(),
        (final(reader)@, r) == int_step(old(reader)@, i64::MIN as int, i64::MAX as int),
{
    read_i64_value(reader)
}

/// Expects any number (an integer, a float32 or a float64), as encoded;
/// converting it to a floating-point value is left to the caller.
pub fn number(reader: &mut Reader<'_>) -> (r: Option<Number>)
    requires
        old(reader)@.wf(),
    ensures
        final(reader)@.wf(),
        (final(reader)@, r) == old(reader)@.typed_step(|t: Tag| tag_number(t)),
{
    match reader.read_tag() {
        Some(Tag::Uint(value)) => Some(Number::Uint(value)),
        Some(Tag::Int(value)) => Some(Number::Int(value)),
        Some(Tag::Float(bits)) => Some(Number::Float(bits)),
        Some(Tag::Double(bits)) => Some(Number::Double(bits)),
        Some(_) => type_error(reader),
        None => None,
    }
}

/// Expects exactly a float32 and returns its bits.
pub fn float_bits(reader: &mut Reader<'_>) -> (r: Option<u32>)
    requires
        old(reader)@.wf(),
    ensures
        final(reader)@.wf(),
        (final(reader)@, r) == old(reader)@.typed_step(|t: Tag| tag_float_bits(t)),
{
    match reader.read_tag() {
        Some(Tag::Float(bits)) => Some(bits),
        Some(_) => type_error(reader),
        None => None,
    }
}

/// Expects exactly a float64 and returns its bits.
pub fn double_bits(reader: &mut Reader<'_>) -> (r: Option<u64>)
    requires
        old(reader)@.wf(),
    ensures
        final(reader)@.wf(),
        (final(reader)@, r) == old(reader)@.typed_step(|t: Tag| tag_double_bits(t)),
{
    match reader.read_tag() {
        Some(Tag::Double(bits)) => Some(bits),
        Some(_) => type_error(reader),
        None => None,
    }
}

/// Expecting an unsigned `u8` within `min..=max`.
pub fn u8_range(reader: &mut Reader<'_>, min_value: u8, max_value: u8) -> (r: Option<u8>)
    requires
        old(reader)@.wf(),
    ensures
        final(reader)@.wf(),
        final(reader)@ == then_check(
            uint_step(old(reader)@, 0xff),
            |v: u64| min_value <= v <= max_value,
        ).0,
        match r {
            Some(x) => then_check(
                uint_step(old(reader)@, 0xff),
                |v: u64| min_value <= v <= max_value,
            ).1 == Some(x as u64),
            None => then_check(
                uint_step(old(reader)@, 0xff),
                |v: u64| min_value <= v <= max_value,
            ).1 is None,
        },
{
    let value = match u8(reader) {
        Some(v) => v,
        None => {
            return None;
        },
    };
    if value >= min_value && value <= max_value {
        Some(value)
    } else {
        type_error(reader)
    }
}

/// Expecting an unsigned `u16` within `min..=max`.
pub fn u16_range(reader: &mut Reader<'_>, min_value: u16, max_value: u16) -> (r: Option<u16>)
    requires
        old(reader)@.wf(),
    ensures
        final(reader)@.wf(),
        final(reader)@ == then_check(
            uint_step(old(reader)@, 0xffff),
            |v: u64| min_value <= v <= max_value,
        ).0,
        match r {
            Some(x) => then_check(
                uint_step(old(reader)@, 0xffff),
                |v: u64| min_value <= v <= max_value,
            ).1 == Some(x as u64),
            None => then_check(
                uint_step(old(reader)@, 0xffff),
                |v: u64| min_value <= v <= max_value,
            ).1 is None,
        },
{
    let value = match u16(reader) {
        Some(v) => v,
        None => {
            return None;
        },
    };
    if value >= min_value && value <= max_value {
        Some(value)
    } else {
        type_error(reader)
    }
}

/// Expecting an unsigned `u32` within `min..=max`.
pub fn u32_range(reader: &mut Reader<'_>, min_value: u32, max_value: u32) -> (r: Option<u32>)
    requires
        old(reader)@.wf(),
    ensures
        final(reader)@.wf(),
        final(reader)@ == then_check(
            uint_step(old(reader)@, 0xffff_ffff),
            |v: u64| min_value <= v <= max_value,
        ).0,
        match r {
            Some(x) => then_check(
                uint_step(old(reader)@, 0xffff_ffff),
                |v: u64| min_value <= v <= max_value,
            ).1 == Some(x as u64),
            None => then_check(
                uint_step(old(reader)@, 0xffff_ffff),
                |v: u64| min_value <= v <= max_value,
            ).1 is None,
        },
{
    let value = match u32(reader) {
        Some(v) => v,
        None => {
            return None;
        },
    };
    if value >= min_value && value <= max_value {
        Some(value)
    } else {
        type_error(reader)
    }
}

/// Expecting an unsigned `u64` within `min..=max`.
pub fn u64_range(reader: &mut Reader<'_>, min_value: u64, max_value: u64) -> (r: Option<u64>)
    requires
        old(reader)@.wf(),
    ensures
        final(reader)@.wf(),
        (final(reader)@, r) == then_check(
            uint_step(old(reader)@, u64::MAX),
            |v: u64| min_value <= v <= max_value,
        ),
{
    let value = match u64(reader) {
        Some(v) => v,
        None => {
            return None;
        },
    };
    if value >= min_value && value <= max_value {
        Some(value)
    } else {
        type_error(reader)
    }
}

/// Expecting a signed `i8` within `min..=max`.
pub fn i8_range(reader: &mut Reader<'_>, min_value: i8, max_value: i8) -> (r: Option<i8>)
    requires
        old(reader)@.wf(),
    ensures
        final(reader)@.wf(),
        final(reader)@ == then_check(
            int_step(old(reader)@, -0x80, 0x7f),
            |v: i64| min_value <= v <= max_value,
        ).0,
        match r {
            Some(x) => then_check(
                int_step(old(reader)@, -0x80, 0x7f),
                |v: i64| min_value <= v <= max_value,
            ).1 == Some(x as i64),
            None => then_check(
                int_step(old(reader)@, -0x80, 0x7f),
                |v: i64| min_value <= v <= max_value,
            ).1 is None,
        },
{
    let value = match i8(reader) {
        Some(v) => v,
        None => {
            return None;
        },
    };
    if value >= min_value && value <= max_value {
        Some(value)
    } else {
        type_error(reader)
    }
}

/// Expecting a signed `i16` within `min..=max`.
pub fn i16_range(reader: &mut Reader<'_>, min_value: i16, max_value: i16) -> (r: Option<i16>)
    requires
        old(reader)@.wf(),
    ensures
        final(reader)@.wf(),
        final(reader)@ == then_check(
            int_step(old(reader)@, -0x8000, 0x7fff),
            |v: i64| min_value <= v <= max_value,
        ).0,
        match r {
            Some(x) => then_check(
                int_step(old(reader)@, -0x8000, 0x7fff),
                |v: i64| min_value <= v <= max_value,
            ).1 == Some(x as i64),
            None => then_check(
                int_step(old(reader)@, -0x8000, 0x7fff),
                |v: i64| min_value <= v <= max_value,
            ).1 is None,
        },
{
    let value = match i16(reader) {
        Some(v) => v,
        None => {
            return None;
        },
    };
    if value >= min_value && value <= max_value {
        Some(value)
    } else {
        type_error(reader)
    }
}

/// Expecting a signed `i32` within `min..=max`.
pub fn i32_range(reader: &mut Reader<'_>, min_value: i32, max_value: i32) -> (r: Option<i32>)
    requires
        old(reader)@.wf(),
    ensures
        final(reader)@.wf(),
        final(reader)@ == then_check(
            int_step(old(reader)@, -0x8000_0000, 0x7fff_ffff),
            |v: i64| min_value <= v <= max_value,
        ).0,
        match r {
            Some(x) => then_check(
                int_step(old(reader)@, -0x8000_0000, 0x7fff_ffff),
                |v: i64| min_value <= v <= max_value,
            ).1 == Some(x as i64),
            None => then_check(
                int_step(old(reader)@, -0x8000_0000, 0x7fff_ffff),
                |v: i64| min_value <= v <= max_value,
            ).1 is None,
        },
{
    let value = match i32(reader) {
        Some(v) => v,
        None => {
            return None;
        },
    };
    if value >= min_value && value <= max_value {
        Some(value)
    } else {
        type_error(reader)
    }
}

/// Expecting a signed `i64` within `min..=max`.
pub fn i64_range(reader: &mut Reader<'_>, min_value: i64, max_value: i64) -> (r: Option<i64>)
    requires
        old(reader)@.wf(),
    ensures
        final(reader)@.wf(),
        (final(reader)@, r) == then_check(
            int_step(old(reader)@, i64::MIN as int, i64::MAX as int),
            |v: i64| min_value <= v <= max_value,
        ),
{
    let value = match i64(reader) {
        Some(v) => v,
        None => {
            return None;
        },
    };
    if value >= min_value && value <= max_value {
        Some(value)
    } else {
        type_error(reader)
    }
}

/// Expects an unsigned integer equal to `value`.
pub fn uint_match(reader: &mut Reader<'_>, value: u64) -> (ok: bool)
    requires
        old(reader)@.wf(),
    ensures
        final(reader)@.wf(),
        (final(reader)@, ok) == match_step(uint_step(old(reader)@, u64::MAX), value),
{
    match u64(reader) {
        Some(got) => {
            if got == value {
                true
            } else {
                fail_bool(reader)
            }
        },
        None => false,
    }
}

/// Expects a signed integer equal to `value`.
pub fn int_match(reader: &mut Reader<'_>, value: i64) -> (ok: bool)
    requires
        old(reader)@.wf(),
    ensures
        final(reader)@.wf(),
        (final(reader)@, ok) == match_step(
            int_step(old(reader)@, i64::MIN as int, i64::MAX as int),
            value,
        ),
{
    match i64(reader) {
        Some(got) => {
            if got == value {
                true
            } else {
                fail_bool(reader)
            }
        },
        None => false,
    }
}

/// Expecting a value that its marker byte alone decides: the byte is
/// consumed, and one that `conv` does not accept records a type error (also
/// when it starts a longer header that is incomplete).
pub open spec fn byte_step<T>(st: ReaderView, conv: spec_fn(u8) -> Option<T>) -> (
    ReaderView,
    Option<T>,
) {
    if st.error != Error::NoError {
        (st, None)
    } else if st.pos >= st.data.len() {
        (st.flag(Error::Invalid), None)
    } else {
        match conv(st.data[st.pos]) {
            Some(v) => (st.advance(1), Some(v)),
            None => (st.advance(1).flag(Error::Type), None),
        }
    }
}

/// The nil marker.
pub open spec fn nil_byte(b: u8) -> Option<()> {
    if b == 0xc0 {
        Some(())
    } else {
        None
    }
}

/// The two boolean markers.
pub open spec fn bool_byte(b: u8) -> Option<bool> {
    if b == 0xc2 {
        Some(false)
    } else if b == 0xc3 {
        Some(true)
    } else {
        None
    }
}

/// Reads the marker byte of a value that it alone decides.
fn marker_byte(reader: &mut Reader<'_>) -> (r: Option<u8>)
    requires
        old(reader)@.wf(),
    ensures
        final(reader)@.wf(),
        old(reader)@.error != Error::NoError ==> final(reader)@ == old(reader)@ && r is None,
        old(reader)@.error == Error::NoError && old(reader)@.pos >= old(reader)@.data.len()
            ==> final(reader)@ == old(reader)@.flag(Error::Invalid) && r is None,
        old(reader)@.error == Error::NoError && old(reader)@.pos < old(reader)@.data.len()
            ==> final(reader)@ == old(reader)@.advance(1) && r == Some(
            old(reader)@.data[old(reader)@.pos],
        ),
{
    match reader.read_bytes(1) {
        Some(b) => Some(b[0]),
        None => None,
    }
}

/// Expects nil.
pub fn nil(reader: &mut Reader<'_>) -> (ok: bool)
    requires
        old(reader)@.wf(),
    ensures
        final(reader)@.wf(),
        final(reader)@ == byte_step(old(reader)@, |b: u8| nil_byte(b)).0,
        ok == byte_step(old(reader)@, |b: u8| nil_byte(b)).1 is Some,
{
    match marker_byte(reader) {
        Some(m) => {
            if m == 0xc0 {
                true
            } else {
                fail_bool(reader)
            }
        },
        None => false,
    }
}

/// Expects a boolean.
pub fn bool_(reader: &mut Reader<'_>) -> (r: Option<bool>)
    requires
        old(reader)@.wf(),
    ensures
        final(reader)@.wf(),
        (final(reader)@, r) == byte_step(old(reader)@, |b: u8| bool_byte(b)),
{
    match marker_byte(reader) {
        Some(m) => {
            if m == 0xc2 {
                Some(false)
            } else if m == 0xc3 {
                Some(true)
            } else {
                type_error(reader)
            }
        },
        None => None,
    }
}

/// Expects the boolean `true`.
pub fn true_(reader: &mut Reader<'_>) -> (ok: bool)
    requires
        old(reader)@.wf(),
    ensures
        final(reader)@.wf(),
        (final(reader)@, ok) == match_step(byte_step(old(reader)@, |b: u8| bool_byte(b)), true),
{
    match bool_(reader) {
        Some(true) => true,
        Some(false) => fail_bool(reader),
        None => false,
    }
}

/// Expects the boolean `false`.
pub fn false_(reader: &mut Reader<'_>) -> (ok: bool)
    requires
        old(reader)@.wf(),
    ensures
        final(reader)@.wf(),
        (final(reader)@, ok) == match_step(byte_step(old(reader)@, |b: u8| bool_byte(b)), false),
{
    match bool_(reader) {
        Some(false) => true,
        Some(true) => fail_bool(reader),
        None => false,
    }
}

/// Expecting a timestamp extension: an ext header of the timestamp type and
/// its payload.
pub open spec fn timestamp_step(st: ReaderView) -> (ReaderView, Option<Timestamp>) {
    let (s1, e) = st.typed_step(|t: Tag| tag_ext(t));
    match e {
        None => (s1, None),
        Some(e) => if e.0 != TIMESTAMP_EXT_TYPE {
            (s1.flag(Error::Type), None)
        } else {
            s1.timestamp_step(e.1 as int)
        },
    }
}

/// Expects a timestamp.
pub fn timestamp(reader: &mut Reader<'_>) -> (r: Option<Timestamp>)
    requires
        old(reader)@.wf(),
    ensures
        final(reader)@.wf(),
        (final(reader)@, r) == timestamp_step(old(reader)@),
{
    let (ext_type, length) = match ext(reader) {
        Some(e) => e,
        None => {
            return None;
        },
    };
    if ext_type != TIMESTAMP_EXT_TYPE {
        return type_error(reader);
    }
    reader.read_timestamp(length as usize)
}

/// Expects a timestamp and returns its seconds.
pub fn timestamp_truncate(reader: &mut Reader<'_>) -> (r: Option<i64>)
    requires
        old(reader)@.wf(),
    ensures
        final(reader)@.wf(),
        final(reader)@ == timestamp_step(old(reader)@).0,
        r == match timestamp_step(old(reader)@).1 {
            Some(t) => Some(t.seconds),
            None => None::<i64>,
        },
{
    match timestamp(reader) {
        Some(value) => Some(value.seconds),
        None => None,
    }
}

/// The element count of an array header, or the pair count of a map header.
pub open spec fn tag_compound(t: Tag, want_map: bool) -> Option<u32> {
    if want_map {
        tag_map(t)
    } else {
        tag_array(t)
    }
}

pub open spec fn count_step(st: ReaderView, want_map: bool) -> (ReaderView, Option<u32>) {
    st.typed_step(|t: Tag| tag_compound(t, want_map))
}

pub open spec fn range_step(st: ReaderView, want_map: bool, min: u32, max: u32) -> (
    ReaderView,
    Option<u32>,
) {
    then_check(count_step(st, want_map), |c: u32| min <= c <= max)
}

/// Expecting an array (or map) header, or nil; with `max` the count must not
/// exceed it.
pub open spec fn or_nil_step(st: ReaderView, want_map: bool, max: Option<u32>) -> (
    ReaderView,
    Option<ExpectCompound>,
) {
    let (p, t) = st.tag_step(false);
    match t {
        None => (p, None),
        Some(t) => if t == Tag::Nil {
            (st.tag_step(true).0, Some(ExpectCompound { is_nil: true, count: 0 }))
        } else if tag_compound(t, want_map) is Some {
            let q = match max {
                Some(m) => range_step(st, want_map, 0, m),
                None => count_step(st, want_map),
            };
            (
                q.0,
                match q.1 {
                    Some(c) => Some(ExpectCompound { is_nil: false, count: c }),
                    None => None,
                },
            )
        } else {
            (st.tag_step(true).0.flag(Error::Type), None)
        },
    }
}

fn compound_count(reader: &mut Reader<'_>, want_map: bool) -> (r: Option<u32>)
    requires
        old(reader)@.wf(),
    ensures
        final(reader)@.wf(),
        (final(reader)@, r) == count_step(old(reader)@, want_map),
{
    match reader.read_tag() {
        Some(Tag::Mapping(count)) => {
            if want_map {
                Some(count)
            } else {
                type_error(reader)
            }
        },
        Some(Tag::Array(count)) => {
            if !want_map {
                Some(count)
            } else {
                type_error(reader)
            }
        },
        Some(_) => type_error(reader),
        None => None,
    }
}

fn compound_range(reader: &mut Reader<'_>, want_map: bool, min_count: u32, max_count: u32) -> (r:
    Option<u32>)
    requires
        old(reader)@.wf(),
    ensures
        final(reader)@.wf(),
        (final(reader)@, r) == range_step(old(reader)@, want_map, min_count, max_count),
{
    let count = match compound_count(reader, want_map) {
        Some(c) => c,
        None => {
            return None;
        },
    };
    if count >= min_count && count <= max_count {
        Some(count)
    } else {
        type_error(reader)
    }
}

fn compound_or_nil(reader: &mut Reader<'_>, want_map: bool, max_count: Option<u32>) -> (r: Option<
    ExpectCompound,
>)
    requires
        old(reader)@.wf(),
    ensures
        final(reader)@.wf(),
        (final(reader)@, r) == or_nil_step(old(reader)@, want_map, max_count),
{
    let tag = match reader.peek_tag() {
        Some(t) => t,
        None => {
            return None;
        },
    };
    match tag {
        Tag::Nil => {
            let _ = reader.read_tag();
            Some(ExpectCompound { is_nil: true, count: 0 })
        },
        Tag::Mapping(_) if want_map => {
            let count = match max_count {
                Some(max) => compound_range(reader, true, 0, max),
                None => compound_count(reader, true),
            };
            match count {
                Some(count) => Some(ExpectCompound { is_nil: false, count }),
                None => None,
            }
        },
        Tag::Array(_) if !want_map => {
            let count = match max_count {
                Some(max) => compound_range(reader, false, 0, max),
                None => compound_count(reader, false),
            };
            match count {
                Some(count) => Some(ExpectCompound { is_nil: false, count }),
                None => None,
            }
        },
        _ => {
            let _ = reader.read_tag();
            type_error(reader)
        },
    }
}

/// Expects a map header and returns its pair count.
pub fn map(reader: &mut Reader<'_>) -> (r: Option<u32>)
    requires
        old(reader)@.wf(),
    ensures
        final(reader)@.wf(),
        (final(reader)@, r) == count_step(old(reader)@, true),
{
    compound_count(reader, true)
}

/// Expects a map header with a pair count within `min..=max`.
pub fn map_range(reader: &mut Reader<'_>, min_count: u32, max_count: u32) -> (r: Option<u32>)
    requires
        old(reader)@.wf(),
    ensures
        final(reader)@.wf(),
        (final(reader)@, r) == range_step(old(reader)@, true, min_count, max_count),
{
    compound_range(reader, true, min_count, max_count)
}

/// Expects a map header with exactly `count` pairs.
pub fn map_match(reader: &mut Reader<'_>, count: u32) -> (ok: bool)
    requires
        old(reader)@.wf(),
    ensures
        final(reader)@.wf(),
        (final(reader)@, ok) == match_step(count_step(old(reader)@, true), count),
{
    match map(reader) {
        Some(got) => {
            if got == count {
                true
            } else {
                fail_bool(reader)
            }
        },
        None => false,
    }
}

/// Expects a map header or nil.
pub fn map_or_nil(reader: &mut Reader<'_>) -> (r: Option<ExpectCompound>)
    requires
        old(reader)@.wf(),
    ensures
        final(reader)@.wf(),
        (final(reader)@, r) == or_nil_step(old(reader)@, true, None),
{
    compound_or_nil(reader, true, None)
}

/// Expects a map header of at most `max_count` pairs, or nil.
pub fn map_max_or_nil(reader: &mut Reader<'_>, max_count: u32) -> (r: Option<ExpectCompound>)
    requires
        old(reader)@.wf(),
    ensures
        final(reader)@.wf(),
        (final(reader)@, r) == or_nil_step(old(reader)@, true, Some(max_count)),
{
    compound_or_nil(reader, true, Some(max_count))
}

/// Expects an array header and returns its element count.
pub fn array(reader: &mut Reader<'_>) -> (r: Option<u32>)
    requires
        old(reader)@.wf(),
    ensures
        final(reader)@.wf(),
        (final(reader)@, r) == count_step(old(reader)@, false),
{
    compound_count(reader, false)
}

/// Expects an array header with an element count within `min..=max`.
pub fn array_range(reader: &mut Reader<'_>, min_count: u32, max_count: u32) -> (r: Option<u32>)
    requires
        old(reader)@.wf(),
    ensures
        final(reader)@.wf(),
        (final(reader)@, r) == range_step(old(reader)@, false, min_count, max_count),
{
    compound_range(reader, false, min_count, max_count)
}

/// Expects an array header with exactly `count` elements.
pub fn array_match(reader: &mut Reader<'_>, count: u32) -> (ok: bool)
    requires
        old(reader)@.wf(),
    ensures
        final(reader)@.wf(),
        (final(reader)@, ok) == match_step(count_step(old(reader)@, false), count),
{
    match array(reader) {
        Some(got) => {
            if got == count {
                true
            } else {
                fail_bool(reader)
            }
        },
        None => false,
    }
}

/// Expects an array header or nil.
pub fn array_or_nil(reader: &mut Reader<'_>) -> (r: Option<ExpectCompound>)
    requires
        old(reader)@.wf(),
    ensures
        final(reader)@.wf(),
        (final(reader)@, r) == or_nil_step(old(reader)@, false, None),
{
    compound_or_nil(reader, false, None)
}

/// Expects an array header of at most `max_count` elements, or nil.
pub fn array_max_or_nil(reader: &mut Reader<'_>, max_count: u32) -> (r: Option<ExpectCompound>)
    requires
        old(reader)@.wf(),
    ensures
        final(reader)@.wf(),
        (final(reader)@, r) == or_nil_step(old(reader)@, false, Some(max_count)),
{
    compound_or_nil(reader, false, Some(max_count))
}

/// Whether a marker byte starts a string header.
pub open spec fn is_str_marker(m: u8) -> bool {
    (0xa0 <= m && m <= 0xbf) || m == 0xd9 || m == 0xda || m == 0xdb
}

/// Expecting a string header. The marker byte decides first: a marker of
/// another type is consumed alone and records a type error, even when the
/// header it starts is incomplete.
pub open spec fn str_step(st: ReaderView) -> (ReaderView, Option<u32>) {
    if st.error != Error::NoError {
        (st, None)
    } else if st.pos >= st.data.len() {
        (st.flag(Error::Invalid), None)
    } else if is_str_marker(st.data[st.pos]) {
        st.typed_step(|t: Tag| tag_str(t))
    } else {
        (st.advance(1).flag(Error::Type), None)
    }
}

/// Expects a string header and returns its byte length.
pub fn str_(reader: &mut Reader<'_>) -> (r: Option<u32>)
    requires
        old(reader)@.wf(),
    ensures
        final(reader)@.wf(),
        (final(reader)@, r) == str_step(old(reader)@),
{
    if reader.error() != Error::NoError {
        return None;
    }
    let marker = match reader.peek_byte() {
        Some(m) => m,
        None => {
            reader.flag_error(Error::Invalid);
            return None;
        },
    };
    if !((0xa0 <= marker && marker <= 0xbf) || marker == 0xd9 || marker == 0xda || marker == 0xdb) {
        let _ = reader.skip_bytes(1);
        return type_error(reader);
    }
    match reader.read_tag() {
        Some(Tag::Str(length)) => Some(length),
        Some(_) => type_error(reader),
        None => None,
    }
}

/// Expects a binary header and returns its byte length.
pub fn bin(reader: &mut Reader<'_>) -> (r: Option<u32>)
    requires
        old(reader)@.wf(),
    ensures
        final(reader)@.wf(),
        (final(reader)@, r) == old(reader)@.typed_step(|t: Tag| tag_bin(t)),
{
    match reader.read_tag() {
        Some(Tag::Bin(length)) => Some(length),
        Some(_) => type_error(reader),
        None => None,
    }
}

/// Expects an extension header and returns its type and byte length.
pub fn ext(reader: &mut Reader<'_>) -> (r: Option<(i8, u32)>)
    requires
        old(reader)@.wf(),
    ensures
        final(reader)@.wf(),
        (final(reader)@, r) == old(reader)@.typed_step(|t: Tag| tag_ext(t)),
{
    match reader.read_tag() {
        Some(Tag::Ext { extension_type, length }) => Some((extension_type, length)),
        Some(_) => type_error(reader),
        None => None,
    }
}

/// Whether two tags are equal; float tags compare by their bits.
fn tags_equal(left: Tag, right: Tag) -> (eq: bool)
    ensures
        eq == (left == right),
{
    match (left, right) {
        (Tag::Nil, Tag::Nil) => true,
        (Tag::Bool(a), Tag::Bool(b)) => a == b,
        (Tag::Int(a), Tag::Int(b)) => a == b,
        (Tag::Uint(a), Tag::Uint(b)) => a == b,
        (Tag::Float(a), Tag::Float(b)) => a == b,
        (Tag::Double(a), Tag::Double(b)) => a == b,
        (Tag::Str(a), Tag::Str(b)) => a == b,
        (Tag::Bin(a), Tag::Bin(b)) => a == b,
        (Tag::Array(a), Tag::Array(b)) => a == b,
        (Tag::Mapping(a), Tag::Mapping(b)) => a == b,
        (
            Tag::Ext { extension_type: a_ty, length: a_len },
            Tag::Ext { extension_type: b_ty, length: b_len },
        ) => a_ty == b_ty && a_len == b_len,
        _ => false,
    }
}

/// Expects exactly the tag `expected`.
pub fn tag(reader: &mut Reader<'_>, expected: Tag) -> (ok: bool)
    requires
        old(reader)@.wf(),
    ensures
        final(reader)@.wf(),
        (final(reader)@, ok) == match_step(old(reader)@.tag_step(true), expected),
{
    match reader.read_tag() {
        Some(got) => {
            if tags_equal(got, expected) {
                true
            } else {
                fail_bool(reader)
            }
        },
        None => false,
    }
}

/// Reading the payload that a header announces into a caller buffer of `cap`
/// bytes: the bytes read, if the header converts, fits and is followed by
/// its whole payload.
pub open spec fn buf_step(header: (ReaderView, Option<u32>), cap: nat) -> (
    ReaderView,
    Option<Seq<u8>>,
) {
    let (s1, l) = header;
    match l {
        None => (s1, None),
        Some(n) => if n > cap {
            (s1.flag(Error::TooBig), None)
        } else if !s1.can_read(n as int) {
            (s1.skip(n as int), None)
        } else {
            (s1.skip(n as int), Some(s1.payload(n as int)))
        },
    }
}

/// A buffer after `b` was copied to its start.
pub open spec fn filled(buf: Seq<u8>, b: Seq<u8>) -> Seq<u8> {
    b + buf.subrange(b.len() as int, buf.len() as int)
}

/// Copies `src` to the start of `dst` if it fits.
fn copy_bytes(dst: &mut [u8], src: &[u8]) -> (r: Option<usize>)
    ensures
        match r {
            Some(n) => src@.len() <= old(dst)@.len() && n == src@.len() && final(dst)@ == filled(
                old(dst)@,
                src@,
            ),
            None => src@.len() > old(dst)@.len() && final(dst)@ == old(dst)@,
        },
{
    let n = src.len();
    if n > dst.len() {
        return None;
    }
    let mut i: usize = 0;
    while i < n
        invariant
            i <= n,
            n == src@.len(),
            n <= dst@.len(),
            dst@.len() == old(dst)@.len(),
            dst@ == src@.subrange(0, i as int) + old(dst)@.subrange(i as int, old(dst)@.len() as int),
        decreases n - i,
    {
        dst[i] = src[i];
        i = i + 1;
        assert(dst@ =~= src@.subrange(0, i as int) + old(dst)@.subrange(
            i as int,
            old(dst)@.len() as int,
        ));
    }
    assert(src@.subrange(0, n as int) =~= src@);
    Some(n)
}

/// Copies `src` and a terminating NUL to the start of `dst` if both fit.
fn copy_cstr(dst: &mut [u8], src: &[u8]) -> (ok: bool)
    ensures
        ok == (src@.len() + 1 <= old(dst)@.len()),
        ok ==> final(dst)@ == filled(old(dst)@, src@.push(0u8)),
        !ok ==> final(dst)@ == old(dst)@,
{
    let n = src.len();
    if n >= dst.len() {
        return false;
    }
    let _ = copy_bytes(dst, src);
    dst[n] = 0;
    assert(dst@ =~= filled(old(dst)@, src@.push(0u8)));
    true
}

/// Expects a string and copies it into `buf`; returns its length.
pub fn str_buf(reader: &mut Reader<'_>, buf: &mut [u8]) -> (r: Option<usize>)
    requires
        old(reader)@.wf(),
    ensures
        final(reader)@.wf(),
        final(reader)@ == buf_step(str_step(old(reader)@), old(buf)@.len()).0,
        match buf_step(str_step(old(reader)@), old(buf)@.len()).1 {
            Some(b) => r == Some(b.len() as usize) && final(buf)@ == filled(old(buf)@, b),
            None => r is None && final(buf)@ == old(buf)@,
        },
{
    let length = match str_(reader) {
        Some(l) => l as usize,
        None => {
            return None;
        },
    };
    if length > buf.len() {
        return too_big(reader);
    }
    let bytes = match reader.read_bytes(length) {
        Some(b) => b,
        None => {
            return None;
        },
    };
    copy_bytes(buf, bytes)
}

/// Expects a string of well-formed UTF-8 and copies it into `buf`; returns
/// its length. The bytes are copied before they are checked.
pub fn utf8(reader: &mut Reader<'_>, buf: &mut [u8]) -> (r: Option<usize>)
    requires
        old(reader)@.wf(),
    ensures
        final(reader)@.wf(),
        match buf_step(str_step(old(reader)@), old(buf)@.len()).1 {
            Some(b) => final(buf)@ == filled(old(buf)@, b) && if valid_utf8(b) {
                r == Some(b.len() as usize) && final(reader)@ == buf_step(str_step(old(reader)@), old(buf)@.len()).0
            } else {
                r is None && final(reader)@ == buf_step(str_step(old(reader)@), old(buf)@.len()).0.flag(Error::Type)
            },
            None => r is None && final(buf)@ == old(buf)@ && final(reader)@ == buf_step(str_step(old(reader)@), old(buf)@.len()).0,
        },
{
    let length = match str_(reader) {
        Some(l) => l as usize,
        None => {
            return None;
        },
    };
    if length > buf.len() {
        return too_big(reader);
    }
    let bytes = match reader.read_bytes(length) {
        Some(b) => b,
        None => {
            return None;
        },
    };
    let written = match copy_bytes(buf, bytes) {
        Some(n) => n,
        None => {
            return None;
        },
    };
    if !check_utf8(bytes) {
        reader.flag_error(Error::Type);
        return None;
    }
    Some(written)
}

/// Whether two byte strings are equal.
pub(crate) fn bytes_equal(a: &[u8], b: &[u8]) -> (eq: bool)
    ensures
        eq == (a@ == b@),
{
    let n = a.len();
    if n != b.len() {
        return false;
    }
    let mut i: usize = 0;
    while i < n
        invariant
            i <= n,
            n == a@.len(),
            n == b@.len(),
            a@.subrange(0, i as int) == b@.subrange(0, i as int),
        decreases n - i,
    {
        if a[i] != b[i] {
            return false;
        }
        i = i + 1;
        assert(a@.subrange(0, i as int) =~= b@.subrange(0, i as int)) by {
            assert(a@.subrange(0, i as int) =~= a@.subrange(0, i - 1).push(a@[i - 1]));
            assert(b@.subrange(0, i as int) =~= b@.subrange(0, i - 1).push(b@[i - 1]));
        }
    }
    assert(a@ =~= a@.subrange(0, n as int));
    assert(b@ =~= b@.subrange(0, n as int));
    true
}

/// Comparing the payload at `s` with `expected` from byte `i` on, one byte
/// at a time: the first byte that differs is consumed and records a type
/// error, and input that ends first records `Invalid`.
pub open spec fn match_from(s: ReaderView, expected: Seq<u8>, i: nat) -> (ReaderView, bool)
    decreases expected.len() - i,
{
    if i >= expected.len() {
        (s.advance(i as int), true)
    } else if s.pos + i >= s.data.len() {
        (s.advance(i as int).flag(Error::Invalid), false)
    } else if s.data[s.pos + i] != expected[i as int] {
        (s.advance(i + 1 as int).flag(Error::Type), false)
    } else {
        match_from(s, expected, (i + 1) as nat)
    }
}

/// Expecting a string equal to `expected`, compared byte by byte.
pub open spec fn str_match_step(st: ReaderView, expected: Seq<u8>) -> (ReaderView, bool) {
    let (s1, l) = str_step(st);
    match l {
        None => (s1, false),
        Some(n) => if n != expected.len() {
            (s1.flag(Error::Type), false)
        } else {
            match_from(s1, expected, 0)
        },
    }
}

/// Expects a string whose bytes equal `expected`, comparing them one at a
/// time as they are read.
pub fn str_match(reader: &mut Reader<'_>, expected: &[u8]) -> (ok: bool)
    requires
        old(reader)@.wf(),
    ensures
        final(reader)@.wf(),
        (final(reader)@, ok) == str_match_step(old(reader)@, expected@),
{
    let length = match str_(reader) {
        Some(l) => l,
        None => {
            return false;
        },
    };
    if length as usize != expected.len() {
        return fail_bool(reader);
    }
    let ghost s1 = reader@;
    assert(str_match_step(old(reader)@, expected@) == match_from(s1, expected@, 0));
    let n = expected.len();
    let mut i: usize = 0;
    while i < n
        invariant
            i <= n,
            n == expected@.len(),
            s1.wf(),
            s1.error == Error::NoError,
            reader@ == s1.advance(i as int),
            reader@.wf(),
            match_from(s1, expected@, 0) == match_from(s1, expected@, i as nat),
            str_match_step(old(reader)@, expected@) == match_from(s1, expected@, 0),
        decreases n - i,
    {
        let byte = match reader.read_bytes(1) {
            Some(b) => b[0],
            None => {
                return false;
            },
        };
        if byte != expected[i] {
            return fail_bool(reader);
        }
        i = i + 1;
    }
    true
}

/// Expecting a string into a buffer of `cap` bytes with room for a NUL
/// terminator; `check` decides whether the bytes are acceptable.
pub open spec fn cstr_step(st: ReaderView, cap: nat, check: spec_fn(Seq<u8>) -> bool) -> (
    ReaderView,
    Option<Seq<u8>>,
) {
    if cap == 0 {
        (st.flag(Error::Bug), None)
    } else {
        let (s1, l) = str_step(st);
        match l {
            None => (s1, None),
            Some(n) => if n + 1 > cap {
                (s1.flag(Error::TooBig), None)
            } else if !s1.can_read(n as int) {
                (s1.skip(n as int), None)
            } else if !check(s1.payload(n as int)) {
                (s1.skip(n as int).flag(Error::Type), None)
            } else {
                (s1.skip(n as int), Some(s1.payload(n as int)))
            },
        }
    }
}

/// Expects a string without NUL bytes and copies it, NUL-terminated, into
/// `buf`. On failure a non-empty `buf` holds the empty string.
pub fn cstr(reader: &mut Reader<'_>, buf: &mut [u8]) -> (ok: bool)
    requires
        old(reader)@.wf(),
    ensures
        final(reader)@.wf(),
        final(reader)@ == cstr_step(
            old(reader)@,
            old(buf)@.len(),
            |b: Seq<u8>| !b.contains(0u8),
        ).0,
        match cstr_step(old(reader)@, old(buf)@.len(), |b: Seq<u8>| !b.contains(0u8)).1 {
            Some(b) => ok && final(buf)@ == filled(old(buf)@, b.push(0u8)),
            None => !ok && final(buf)@ == if old(buf)@.len() == 0 {
                old(buf)@
            } else {
                old(buf)@.update(0, 0u8)
            },
        },
{
    if buf.len() == 0 {
        reader.flag_error(Error::Bug);
        return false;
    }
    let length = match str_(reader) {
        Some(l) => l as usize,
        None => {
            buf[0] = 0;
            return false;
        },
    };
    if length >= buf.len() {
        buf[0] = 0;
        return fail_too_big(reader);
    }
    let bytes = match reader.read_bytes(length) {
        Some(b) => b,
        None => {
            buf[0] = 0;
            return false;
        },
    };
    if contains_nul(bytes) {
        buf[0] = 0;
        return fail_bool(reader);
    }
    let _ = copy_cstr(buf, bytes);
    true
}

/// Whether `bytes` holds a NUL byte.
fn contains_nul(bytes: &[u8]) -> (r: bool)
    ensures
        r == bytes@.contains(0u8),
{
    let n = bytes.len();
    let mut i: usize = 0;
    while i < n
        invariant
            i <= n,
            n == bytes@.len(),
            forall|j: int| 0 <= j < i ==> bytes@[j] != 0u8,
        decreases n - i,
    {
        if bytes[i] == 0 {
            assert(bytes@[i as int] == 0u8);
            return true;
        }
        i = i + 1;
    }
    false
}

/// Expects a string of well-formed UTF-8 without NUL bytes and copies it,
/// NUL-terminated, into `buf`. On failure a non-empty `buf` holds the empty
/// string.
pub fn utf8_cstr(reader: &mut Reader<'_>, buf: &mut [u8]) -> (ok: bool)
    requires
        old(reader)@.wf(),
    ensures
        final(reader)@.wf(),
        final(reader)@ == cstr_step(
            old(reader)@,
            old(buf)@.len(),
            |b: Seq<u8>| valid_utf8(b) && !b.contains(0u8),
        ).0,
        match cstr_step(
            old(reader)@,
            old(buf)@.len(),
            |b: Seq<u8>| valid_utf8(b) && !b.contains(0u8),
        ).1 {
            Some(b) => ok && final(buf)@ == filled(old(buf)@, b.push(0u8)),
            None => !ok && final(buf)@ == if old(buf)@.len() == 0 {
                old(buf)@
            } else {
                old(buf)@.update(0, 0u8)
            },
        },
{
    if buf.len() == 0 {
        reader.flag_error(Error::Bug);
        return false;
    }
    let length = match str_(reader) {
        Some(l) => l as usize,
        None => {
            buf[0] = 0;
            return false;
        },
    };
    if length >= buf.len() {
        buf[0] = 0;
        return fail_too_big(reader);
    }
    let bytes = match reader.read_bytes(length) {
        Some(b) => b,
        None => {
            buf[0] = 0;
            return false;
        },
    };
    if !check_utf8_no_null(bytes) {
        buf[0] = 0;
        return fail_bool(reader);
    }
    let _ = copy_cstr(buf, bytes);
    true
}

/// Expects binary data and copies it into `buf`; returns its length.
pub fn bin_buf(reader: &mut Reader<'_>, buf: &mut [u8]) -> (r: Option<usize>)
    requires
        old(reader)@.wf(),
    ensures
        final(reader)@.wf(),
        final(reader)@ == buf_step(old(reader)@.typed_step(|t: Tag| tag_bin(t)), old(buf)@.len()).0,
        match buf_step(old(reader)@.typed_step(|t: Tag| tag_bin(t)), old(buf)@.len()).1 {
            Some(b) => r == Some(b.len() as usize) && final(buf)@ == filled(old(buf)@, b),
            None => r is None && final(buf)@ == old(buf)@,
        },
{
    let length = match bin(reader) {
        Some(l) => l as usize,
        None => {
            return None;
        },
    };
    if length > buf.len() {
        return too_big(reader);
    }
    let bytes = match reader.read_bytes(length) {
        Some(b) => b,
        None => {
            return None;
        },
    };
    copy_bytes(buf, bytes)
}

/// Expecting binary data of exactly `size` bytes, copied into a buffer of
/// `cap` bytes.
pub open spec fn bin_size_step(st: ReaderView, cap: nat, size: u32) -> (
    ReaderView,
    Option<Seq<u8>>,
) {
    let (s1, l) = st.typed_step(|t: Tag| tag_bin(t));
    match l {
        None => (s1, None),
        Some(n) => if n != size {
            (s1.flag(Error::Type), None)
        } else if !s1.can_read(n as int) {
            (s1.skip(n as int), None)
        } else if n > cap {
            (s1.skip(n as int).flag(Error::Type), None)
        } else {
            (s1.skip(n as int), Some(s1.payload(n as int)))
        },
    }
}

/// Expects binary data of exactly `size` bytes and copies it into `buf`.
pub fn bin_size_buf(reader: &mut Reader<'_>, buf: &mut [u8], size: u32) -> (ok: bool)
    requires
        old(reader)@.wf(),
    ensures
        final(reader)@.wf(),
        final(reader)@ == bin_size_step(old(reader)@, old(buf)@.len(), size).0,
        match bin_size_step(old(reader)@, old(buf)@.len(), size).1 {
            Some(b) => ok && final(buf)@ == filled(old(buf)@, b),
            None => !ok && final(buf)@ == old(buf)@,
        },
{
    match bin(reader) {
        Some(length) => {
            if length != size {
                return fail_bool(reader);
            }
        },
        None => {
            return false;
        },
    }
    match reader.read_bytes(size as usize) {
        Some(bytes) => {
            if copy_bytes(buf, bytes).is_some() {
                true
            } else {
                fail_bool(reader)
            }
        },
        None => false,
    }
}

/// Expecting an extension and copying its payload into a buffer of `cap` bytes.
pub open spec fn ext_buf_step(st: ReaderView, cap: nat) -> (ReaderView, Option<(i8, Seq<u8>)>) {
    let (s1, e) = st.typed_step(|t: Tag| tag_ext(t));
    match e {
        None => (s1, None),
        Some(e) => if e.1 > cap {
            (s1.flag(Error::TooBig), None)
        } else if !s1.can_read(e.1 as int) {
            (s1.skip(e.1 as int), None)
        } else {
            (s1.skip(e.1 as int), Some((e.0, s1.payload(e.1 as int))))
        },
    }
}

/// Expects an extension and copies its payload into `buf`; returns its type
/// and length.
pub fn ext_buf(reader: &mut Reader<'_>, buf: &mut [u8]) -> (r: Option<(i8, usize)>)
    requires
        old(reader)@.wf(),
    ensures
        final(reader)@.wf(),
        final(reader)@ == ext_buf_step(old(reader)@, old(buf)@.len()).0,
        match ext_buf_step(old(reader)@, old(buf)@.len()).1 {
            Some((t, b)) => r == Some((t, b.len() as usize)) && final(buf)@ == filled(old(buf)@, b),
            None => r is None && final(buf)@ == old(buf)@,
        },
{
    let (ext_type, length) = match ext(reader) {
        Some(e) => e,
        None => {
            return None;
        },
    };
    if length as usize > buf.len() {
        return too_big(reader);
    }
    let bytes = match reader.read_bytes(length as usize) {
        Some(b) => b,
        None => {
            return None;
        },
    };
    match copy_bytes(buf, bytes) {
        Some(written) => Some((ext_type, written)),
        None => None,
    }
}

/// Reading a map key that should be an unsigned integer below `found.len()`,
/// each such key at most once: the key's index, or `found.len()` for a key
/// of another type (which is skipped whole) or out of range.
pub open spec fn key_uint_step(st: ReaderView, found: Seq<bool>) -> (
    ReaderView,
    Option<int>,
    Seq<bool>,
) {
    if found.len() == 0 {
        (st.flag(Error::Bug), None, found)
    } else {
        let (p, t) = st.tag_step(false);
        match t {
            None => (p, None, found),
            Some(Tag::Uint(k)) => {
                let s1 = st.tag_step(true).0;
                if k >= found.len() {
                    (s1, Some(found.len() as int), found)
                } else if found[k as int] {
                    (s1.flag(Error::Invalid), None, found)
                } else {
                    (s1, Some(k as int), found.update(k as int, true))
                }
            },
            Some(_) => (st.discard_value(), Some(found.len() as int), found),
        }
    }
}

/// Reads a map key that should be an unsigned integer, marking it in `found`.
pub fn key_uint(reader: &mut Reader<'_>, found: &mut [bool]) -> (r: Option<usize>)
    requires
        old(reader)@.wf(),
    ensures
        final(reader)@.wf(),
        final(reader)@ == key_uint_step(old(reader)@, old(found)@).0,
        final(found)@ == key_uint_step(old(reader)@, old(found)@).2,
        match r {
            Some(i) => key_uint_step(old(reader)@, old(found)@).1 == Some(i as int),
            None => key_uint_step(old(reader)@, old(found)@).1 is None,
        },
{
    if found.len() == 0 {
        reader.flag_error(Error::Bug);
        return None;
    }
    let tag = match reader.peek_tag() {
        Some(t) => t,
        None => {
            return None;
        },
    };
    match tag {
        Tag::Uint(_) => {},
        _ => {
            reader.discard();
            return Some(found.len());
        },
    }
    let key = match u64(reader) {
        Some(k) => k,
        None => {
            return None;
        },
    };
    if key >= found.len() as u64 {
        return Some(found.len());
    }
    let index = key as usize;
    if found[index] {
        reader.flag_error(Error::Invalid);
        return None;
    }
    found[index] = true;
    Some(index)
}

/// The index of the first key whose bytes equal `b`, or `keys.len()`.
pub open spec fn find_key(keys: Seq<Seq<u8>>, b: Seq<u8>) -> int
    decreases keys.len(),
{
    if keys.len() == 0 {
        0
    } else if keys[0] == b {
        0
    } else {
        1 + find_key(keys.drop_first(), b)
    }
}

/// The bytes of each key.
pub open spec fn key_bytes(keys: Seq<&str>) -> Seq<Seq<u8>> {
    keys.map_values(|k: &str| k.spec_bytes())
}

/// Reading a map key that should be one of the strings `keys`, each at most
/// once: its index, or `keys.len()` for a key of another type (which is
/// skipped whole) or an unknown string.
pub open spec fn key_cstr_step(st: ReaderView, keys: Seq<Seq<u8>>, found: Seq<bool>) -> (
    ReaderView,
    Option<int>,
    Seq<bool>,
) {
    if keys.len() == 0 || keys.len() != found.len() {
        (st.flag(Error::Bug), None, found)
    } else {
        let (p, t) = st.tag_step(false);
        match t {
            None => (p, None, found),
            Some(Tag::Str(n)) => {
                let s1 = st.tag_step(true).0;
                if !s1.can_read(n as int) {
                    (s1.skip(n as int), None, found)
                } else {
                    let s2 = s1.skip(n as int);
                    let i = find_key(keys, s1.payload(n as int));
                    if i >= keys.len() {
                        (s2, Some(keys.len() as int), found)
                    } else if found[i] {
                        (s2.flag(Error::Invalid), None, found)
                    } else {
                        (s2, Some(i), found.update(i, true))
                    }
                }
            },
            Some(_) => (st.discard_value(), Some(keys.len() as int), found),
        }
    }
}

pub(crate) proof fn lemma_find_key_step(keys: Seq<Seq<u8>>, b: Seq<u8>, i: int)
    requires
        0 <= i < keys.len(),
        forall|j: int| 0 <= j < i ==> keys[j] != b,
    ensures
        keys[i] == b ==> find_key(keys, b) == i,
    decreases i,
{
    if i > 0 {
        lemma_find_key_step(keys.drop_first(), b, i - 1);
    }
}

pub(crate) proof fn lemma_find_key_none(keys: Seq<Seq<u8>>, b: Seq<u8>)
    requires
        forall|j: int| 0 <= j < keys.len() ==> keys[j] != b,
    ensures
        find_key(keys, b) == keys.len(),
    decreases keys.len(),
{
    if keys.len() > 0 {
        lemma_find_key_none(keys.drop_first(), b);
    }
}

/// Reads a map key that should be one of `keys`, marking it in `found`.
#[verifier::loop_isolation(false)]
pub fn key_cstr(reader: &mut Reader<'_>, keys: &[&str], found: &mut [bool]) -> (r: Option<usize>)
    requires
        old(reader)@.wf(),
    ensures
        final(reader)@.wf(),
        final(reader)@ == key_cstr_step(old(reader)@, key_bytes(keys@), old(found)@).0,
        final(found)@ == key_cstr_step(old(reader)@, key_bytes(keys@), old(found)@).2,
        match r {
            Some(i) => key_cstr_step(old(reader)@, key_bytes(keys@), old(found)@).1 == Some(
                i as int,
            ),
            None => key_cstr_step(old(reader)@, key_bytes(keys@), old(found)@).1 is None,
        },
{
    let ghost kb = key_bytes(keys@);
    if keys.len() == 0 || keys.len() != found.len() {
        reader.flag_error(Error::Bug);
        return None;
    }
    let tag = match reader.peek_tag() {
        Some(t) => t,
        None => {
            return None;
        },
    };
    match tag {
        Tag::Str(_) => {},
        _ => {
            reader.discard();
            return Some(keys.len());
        },
    }
    let length = match str_(reader) {
        Some(l) => l as usize,
        None => {
            return None;
        },
    };
    let bytes = match reader.read_bytes(length) {
        Some(b) => b,
        None => {
            return None;
        },
    };
    let ghost st2 = reader@;
    let n = keys.len();
    let mut index: usize = 0;
    while index < n
        invariant
            index <= n,
            n == keys@.len(),
            n == found@.len(),
            kb == key_bytes(keys@),
            found@ == old(found)@,
            reader@ == st2,
            forall|j: int| 0 <= j < index ==> kb[j] != bytes@,
        decreases n - index,
    {
        let key = keys[index].as_bytes();
        proof {
            lemma_find_key_step(kb, bytes@, index as int);
        }
        if bytes_equal(key, bytes) {
            if found[index] {
                reader.flag_error(Error::Invalid);
                return None;
            }
            found[index] = true;
            return Some(index);
        }
        index = index + 1;
    }
    proof {
        lemma_find_key_none(kb, bytes@);
    }
    Some(keys.len())
}

} // verus!
