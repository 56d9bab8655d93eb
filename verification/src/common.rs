//! Shared tags, errors and timestamp values of the MessagePack codec.

use vstd::prelude::*;

verus! {

/// Sticky error codes shared by the writer, the reader and the tree.
#[derive(Debug, Clone, Copy, PartialEq, Eq, Structural)]
pub enum Error {
    NoError,
    Io,
    Invalid,
    Unsupported,
    Type,
    TooBig,
    Memory,
    Bug,
    Data,
    Eof,
}

impl Default for Error {
    fn default() -> (e: Self)
        ensures
            e == Error::NoError,
    {
        Error::NoError
    }
}

/// MessagePack type category of a decoded tag.
#[derive(Debug, Clone, Copy, PartialEq, Eq, Structural)]
pub enum Type {
    Nil,
    Bool,
    Int,
    Uint,
    Float,
    Double,
    Str,
    Bin,
    Array,
    Mapping,
    Ext,
}

/// One decoded MessagePack header.
///
/// Floating-point values are carried as their exact IEEE-754 bit patterns,
/// so that decoding never canonicalises a NaN payload.
#[derive(Debug, Clone, Copy, PartialEq, Eq, Structural)]
pub enum Tag {
    Nil,
    Bool(bool),
    Int(i64),
    Uint(u64),
    /// Bits of an IEEE-754 single-precision value.
    Float(u32),
    /// Bits of an IEEE-754 double-precision value.
    Double(u64),
    /// Byte length of a string payload.
    Str(u32),
    /// Byte length of a binary payload.
    Bin(u32),
    /// Element count of an array.
    Array(u32),
    /// Key/value pair count of a map.
    Mapping(u32),
    /// Extension type and payload byte length.
    Ext { extension_type: i8, length: u32 },
}

/// The type category of each tag variant.
pub open spec fn tag_kind(tag: Tag) -> Type {
    match tag {
        Tag::Nil => Type::Nil,
        Tag::Bool(_) => Type::Bool,
        Tag::Int(_) => Type::Int,
        Tag::Uint(_) => Type::Uint,
        Tag::Float(_) => Type::Float,
        Tag::Double(_) => Type::Double,
        Tag::Str(_) => Type::Str,
        Tag::Bin(_) => Type::Bin,
        Tag::Array(_) => Type::Array,
        Tag::Mapping(_) => Type::Mapping,
        Tag::Ext { .. } => Type::Ext,
    }
}

impl Tag {
    /// Returns the tag's MessagePack type category.
    pub fn kind(&self) -> (t: Type)
        ensures
            t == tag_kind(*self),
    {
        match self {
            Tag::Nil => Type::Nil,
            Tag::Bool(_) => Type::Bool,
            Tag::Int(_) => Type::Int,
            Tag::Uint(_) => Type::Uint,
            Tag::Float(_) => Type::Float,
            Tag::Double(_) => Type::Double,
            Tag::Str(_) => Type::Str,
            Tag::Bin(_) => Type::Bin,
            Tag::Array(_) => Type::Array,
            Tag::Mapping(_) => Type::Mapping,
            Tag::Ext { .. } => Type::Ext,
        }
    }
}

/// A number as it was encoded, before any conversion to floating point.
#[derive(Debug, Clone, Copy, PartialEq, Eq, Structural)]
pub enum Number {
    Uint(u64),
    Int(i64),
    /// Bits of an IEEE-754 single-precision value.
    Float(u32),
    /// Bits of an IEEE-754 double-precision value.
    Double(u64),
}

/// A MessagePack timestamp: seconds since the epoch and a nanosecond part.
#[derive(Debug, Clone, Copy, PartialEq, Eq, Structural)]
pub struct Timestamp {
    pub seconds: i64,
    pub nanoseconds: u32,
}

/// Largest nanosecond part a timestamp may carry.
pub const TIMESTAMP_NANOSECONDS_MAX: u32 = 999_999_999;

/// Extension type reserved for timestamps.
pub const TIMESTAMP_EXT_TYPE: i8 = -1;

/// A tag's rank in the order of tags: its type's code (nil first, extension
/// values last), with a non-negative signed integer ranked as an unsigned
/// one.
pub open spec fn tag_rank(t: Tag) -> int {
    match t {
        Tag::Nil => 1,
        Tag::Bool(_) => 2,
        Tag::Int(v) => if v >= 0 {
            4
        } else {
            3
        },
        Tag::Uint(_) => 4,
        Tag::Float(_) => 5,
        Tag::Double(_) => 6,
        Tag::Str(_) => 7,
        Tag::Bin(_) => 8,
        Tag::Array(_) => 9,
        Tag::Mapping(_) => 10,
        Tag::Ext { .. } => 11,
    }
}

/// What orders two tags of one rank: the boolean as 0 or 1, the integer's
/// value, a float's bits read as an unsigned integer, a length or a count.
pub open spec fn tag_key(t: Tag) -> int {
    match t {
        Tag::Nil => 0,
        Tag::Bool(b) => if b {
            1
        } else {
            0
        },
        Tag::Int(v) => v as int,
        Tag::Uint(v) => v as int,
        Tag::Float(bits) => bits as int,
        Tag::Double(bits) => bits as int,
        Tag::Str(n) => n as int,
        Tag::Bin(n) => n as int,
        Tag::Array(n) => n as int,
        Tag::Mapping(n) => n as int,
        Tag::Ext { .. } => 0,
    }
}

/// The order of two tags: -1, 0 or 1 as `a` comes before, with or after
/// `b`, by rank and then by key; an extension tag always comes after a tag
/// of its rank.
pub open spec fn tag_order(a: Tag, b: Tag) -> i32 {
    if tag_rank(a) != tag_rank(b) {
        if tag_rank(a) < tag_rank(b) {
            -1i32
        } else {
            1i32
        }
    } else if a is Ext {
        1i32
    } else if tag_key(a) == tag_key(b) {
        0i32
    } else if tag_key(a) < tag_key(b) {
        -1i32
    } else {
        1i32
    }
}

fn rank_of(t: Tag) -> (r: u8)
    ensures
        r == tag_rank(t),
{
    match t {
        Tag::Nil => 1,
        Tag::Bool(_) => 2,
        Tag::Int(v) => if v >= 0 {
            4
        } else {
            3
        },
        Tag::Uint(_) => 4,
        Tag::Float(_) => 5,
        Tag::Double(_) => 6,
        Tag::Str(_) => 7,
        Tag::Bin(_) => 8,
        Tag::Array(_) => 9,
        Tag::Mapping(_) => 10,
        Tag::Ext { .. } => 11,
    }
}

/// -1, 0 or 1 as `left` is less than, equal to or greater than `right`.
pub fn compare_unsigned(left: u64, right: u64) -> (r: i32)
    ensures
        r == (if left == right {
            0i32
        } else if left < right {
            -1i32
        } else {
            1i32
        }),
{
    if left == right {
        0
    } else if left < right {
        -1
    } else {
        1
    }
}

/// -1, 0 or 1 as `left` is less than, equal to or greater than `right`.
pub fn compare_signed(left: i64, right: i64) -> (r: i32)
    ensures
        r == (if left == right {
            0i32
        } else if left < right {
            -1i32
        } else {
            1i32
        }),
{
    if left == right {
        0
    } else if left < right {
        -1
    } else {
        1
    }
}

/// Compares two tags as MessagePack values: by type, with non-negative
/// signed integers taken as unsigned ones, and then by value (floats by
/// their bits, strings, binaries and compounds by length or count); an
/// extension tag compares greater than any tag of its type.
pub fn compare_tags(left: Tag, right: Tag) -> (r: i32)
    ensures
        r == tag_order(left, right),
{
    let rank_left = rank_of(left);
    let rank_right = rank_of(right);
    if rank_left != rank_right {
        return if rank_left < rank_right {
            -1
        } else {
            1
        };
    }
    match (left, right) {
        (Tag::Nil, Tag::Nil) => 0,
        (Tag::Bool(a), Tag::Bool(b)) => compare_unsigned(if a {
            1
        } else {
            0
        }, if b {
            1
        } else {
            0
        }),
        (Tag::Int(a), Tag::Int(b)) => compare_signed(a, b),
        (Tag::Int(a), Tag::Uint(b)) => compare_unsigned(a as u64, b),
        (Tag::Uint(a), Tag::Int(b)) => compare_unsigned(a, b as u64),
        (Tag::Uint(a), Tag::Uint(b)) => compare_unsigned(a, b),
        (Tag::Float(a), Tag::Float(b)) => compare_unsigned(a as u64, b as u64),
        (Tag::Double(a), Tag::Double(b)) => compare_unsigned(a, b),
        (Tag::Str(a), Tag::Str(b)) => compare_unsigned(a as u64, b as u64),
        (Tag::Bin(a), Tag::Bin(b)) => compare_unsigned(a as u64, b as u64),
        (Tag::Array(a), Tag::Array(b)) => compare_unsigned(a as u64, b as u64),
        (Tag::Mapping(a), Tag::Mapping(b)) => compare_unsigned(a as u64, b as u64),
        _ => 1,
    }
}

/// Tags other than extension tags are totally ordered by `tag_order`: each
/// equals itself, swapping the two reverses the result, tags compare equal
/// exactly when rank and key agree, and the order is transitive.
pub proof fn law_tag_order(a: Tag, b: Tag, c: Tag)
    requires
        !(a is Ext),
        !(b is Ext),
        !(c is Ext),
    ensures
        tag_order(a, a) == 0,
        tag_order(a, b) == -tag_order(b, a),
        (tag_order(a, b) == 0) == (tag_rank(a) == tag_rank(b) && tag_key(a) == tag_key(b)),
        tag_order(a, b) <= 0 && tag_order(b, c) <= 0 ==> tag_order(a, c) <= 0,
{
}

} // verus!
