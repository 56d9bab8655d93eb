//! Printing MessagePack data as indented pseudo-JSON, for debugging.
//!
//! The output is a sequence of bytes, except that each float is left as its
//! bits, for the caller to format with six decimals.

use vstd::prelude::*;
use vstd::slice::slice_subrange;
use vstd::string::StringSliceAdditionalSpecFns;
use crate::common::{Error, Tag};
use crate::node::{law_parsed_tree_shape, tree_of, Node, Tree, TreeView};
use crate::reader::{Reader, ReaderView};

verus! {

/// The ASCII line feed.
pub const NEWLINE: u8 = 0x0a;

/// The ASCII space.
pub const SPACE: u8 = 0x20;

/// The ASCII double quote.
pub const QUOTE: u8 = 0x22;

/// The ASCII minus sign.
pub const MINUS: u8 = 0x2d;

/// The ASCII digit zero.
pub const DIGIT_ZERO: u8 = 0x30;

/// The ASCII backslash.
pub const BACKSLASH: u8 = 0x5c;

/// The ASCII small letter a.
pub const LETTER_A: u8 = 0x61;

/// The ASCII small letter n.
pub const LETTER_N: u8 = 0x6e;

/// One element of printed output: a byte of text, or a float to format.
#[derive(Debug, Clone, Copy, PartialEq, Eq, Structural)]
pub enum Printed {
    Char(u8),
    /// Bits of an IEEE-754 single-precision value.
    Float(u32),
    /// Bits of an IEEE-754 double-precision value.
    Double(u64),
}

/// Text as printed output.
pub open spec fn text(s: Seq<u8>) -> Seq<Printed> {
    s.map_values(|b: u8| Printed::Char(b))
}

/// `n` levels of indentation, four spaces each.
pub open spec fn indent(n: nat) -> Seq<u8>
    decreases n,
{
    if n == 0 {
        Seq::empty()
    } else {
        indent((n - 1) as nat) + seq![SPACE, SPACE, SPACE, SPACE]
    }
}

/// The decimal digits of `v`.
pub open spec fn decimal(v: nat) -> Seq<u8>
    decreases v,
{
    if v < 10 {
        seq![(DIGIT_ZERO + v) as u8]
    } else {
        decimal(v / 10).push((DIGIT_ZERO + v % 10) as u8)
    }
}

/// A signed integer in decimal.
pub open spec fn signed_decimal(v: int) -> Seq<u8> {
    if v < 0 {
        seq![MINUS] + decimal((-v) as nat)
    } else {
        decimal(v as nat)
    }
}

/// A hexadecimal digit, lower case.
pub open spec fn hex_digit(d: nat) -> u8 {
    if d < 10 {
        (DIGIT_ZERO + d) as u8
    } else {
        (LETTER_A + d - 10) as u8
    }
}

/// Two hexadecimal digits for each byte.
pub open spec fn hex(s: Seq<u8>) -> Seq<u8>
    decreases s.len(),
{
    if s.len() == 0 {
        Seq::empty()
    } else {
        hex(s.drop_last()) + seq![hex_digit(s.last() as nat / 16), hex_digit(s.last() as nat % 16)]
    }
}

/// A string's bytes with newline, backslash and double quote escaped.
pub open spec fn escaped(s: Seq<u8>) -> Seq<u8>
    decreases s.len(),
{
    if s.len() == 0 {
        Seq::empty()
    } else {
        escaped(s.drop_last()) + escape_byte(s.last())
    }
}

pub open spec fn escape_byte(b: u8) -> Seq<u8> {
    if b == NEWLINE {
        seq![BACKSLASH, LETTER_N]
    } else if b == BACKSLASH {
        seq![BACKSLASH, BACKSLASH]
    } else if b == QUOTE {
        seq![BACKSLASH, QUOTE]
    } else {
        seq![b]
    }
}

/// Appends `bytes` as text.
fn push_text(out: &mut Vec<Printed>, bytes: &[u8])
    ensures
        final(out)@ == old(out)@ + text(bytes@),
{
    let n = bytes.len();
    let mut i: usize = 0;
    while i < n
        invariant
            i <= n,
            n == bytes@.len(),
            out@ == old(out)@ + text(bytes@.subrange(0, i as int)),
        decreases n - i,
    {
        out.push(Printed::Char(bytes[i]));
        i = i + 1;
        assert(text(bytes@.subrange(0, i as int)) =~= text(bytes@.subrange(0, i - 1)).push(
            Printed::Char(bytes@[i - 1]),
        ));
    }
    assert(bytes@.subrange(0, n as int) =~= bytes@);
}

/// Appends the bytes of `s`.
fn push_str(out: &mut Vec<Printed>, s: &str)
    ensures
        final(out)@ == old(out)@ + text(s.spec_bytes()),
{
    push_text(out, s.as_bytes());
}

/// Appends one byte of text.
fn push_char(out: &mut Vec<Printed>, b: u8)
    ensures
        final(out)@ == old(out)@ + text(seq![b]),
{
    out.push(Printed::Char(b));
    assert(text(seq![b]) =~= seq![Printed::Char(b)]);
}

/// Appends `n` levels of indentation.
fn push_indent(out: &mut Vec<Printed>, n: usize)
    ensures
        final(out)@ == old(out)@ + text(indent(n as nat)),
{
    let mut i: usize = 0;
    while i < n
        invariant
            i <= n,
            out@ == old(out)@ + text(indent(i as nat)),
        decreases n - i,
    {
        let spaces = vec![SPACE, SPACE, SPACE, SPACE];
        push_text(out, spaces.as_slice());
        i = i + 1;
        assert(text(indent(i as nat)) =~= text(indent((i - 1) as nat)) + text(spaces@));
    }
}

/// Appends `v` in decimal.
fn push_decimal(out: &mut Vec<Printed>, v: u64)
    ensures
        final(out)@ == old(out)@ + text(decimal(v as nat)),
    decreases v,
{
    if v >= 10 {
        push_decimal(out, v / 10);
    }
    push_char(out, DIGIT_ZERO + (v % 10) as u8);
    proof {
        if v >= 10 {
            assert(text(decimal(v as nat)) =~= text(decimal((v / 10) as nat)) + text(
                seq![(DIGIT_ZERO + v % 10) as u8],
            ));
        } else {
            assert(decimal(v as nat) =~= seq![(DIGIT_ZERO + v % 10) as u8]);
        }
    }
}

/// Appends `v` in decimal, with a minus sign when negative.
fn push_signed(out: &mut Vec<Printed>, v: i64)
    ensures
        final(out)@ == old(out)@ + text(signed_decimal(v as int)),
{
    if v < 0 {
        push_char(out, MINUS);
        let magnitude: u64 = if v == i64::MIN {
            0x8000_0000_0000_0000
        } else {
            (-v) as u64
        };
        push_decimal(out, magnitude);
        assert(text(signed_decimal(v as int)) =~= text(seq![MINUS]) + text(
            decimal(magnitude as nat),
        ));
    } else {
        push_decimal(out, v as u64);
    }
}

/// Appends two hexadecimal digits for each of `bytes`.
fn push_hex(out: &mut Vec<Printed>, bytes: &[u8])
    ensures
        final(out)@ == old(out)@ + text(hex(bytes@)),
{
    let n = bytes.len();
    let mut i: usize = 0;
    while i < n
        invariant
            i <= n,
            n == bytes@.len(),
            out@ == old(out)@ + text(hex(bytes@.subrange(0, i as int))),
        decreases n - i,
    {
        let b = bytes[i];
        let high = b / 16;
        let low = b % 16;
        push_char(out, if high < 10 { DIGIT_ZERO + high } else { LETTER_A + high - 10 });
        push_char(out, if low < 10 { DIGIT_ZERO + low } else { LETTER_A + low - 10 });
        i = i + 1;
        assert(bytes@.subrange(0, i as int).drop_last() =~= bytes@.subrange(0, i - 1));
        assert(text(hex(bytes@.subrange(0, i as int))) =~= text(hex(bytes@.subrange(0, i - 1)))
            + text(seq![hex_digit(b as nat / 16)]) + text(seq![hex_digit(b as nat % 16)]));
    }
    assert(bytes@.subrange(0, n as int) =~= bytes@);
}

/// Appends a string's bytes, escaped.
fn push_escaped(out: &mut Vec<Printed>, bytes: &[u8])
    ensures
        final(out)@ == old(out)@ + text(escaped(bytes@)),
{
    let n = bytes.len();
    let mut i: usize = 0;
    while i < n
        invariant
            i <= n,
            n == bytes@.len(),
            out@ == old(out)@ + text(escaped(bytes@.subrange(0, i as int))),
        decreases n - i,
    {
        let b = bytes[i];
        if b == NEWLINE {
            push_char(out, BACKSLASH);
            push_char(out, LETTER_N);
        } else if b == BACKSLASH {
            push_char(out, BACKSLASH);
            push_char(out, BACKSLASH);
        } else if b == QUOTE {
            push_char(out, BACKSLASH);
            push_char(out, QUOTE);
        } else {
            push_char(out, b);
        }
        i = i + 1;
        assert(bytes@.subrange(0, i as int).drop_last() =~= bytes@.subrange(0, i - 1));
        assert(text(escaped(bytes@.subrange(0, i as int))) =~= text(
            escaped(bytes@.subrange(0, i - 1)),
        ) + text(escape_byte(b)));
    }
    assert(bytes@.subrange(0, n as int) =~= bytes@);
}


/// Most payload bytes of a bin or ext value that are shown in hexadecimal.
pub const PRINT_BYTE_COUNT: usize = 12;

/// Reading the first bytes of a payload of `n` bytes to show, and skipping
/// the rest: the bytes shown (none when the payload is cut short).
pub open spec fn prefix_step(s: ReaderView, n: nat) -> (ReaderView, Seq<u8>) {
    if n == 0 {
        (s, Seq::empty())
    } else {
        let take: nat = if n < PRINT_BYTE_COUNT {
            n
        } else {
            PRINT_BYTE_COUNT as nat
        };
        let (s2, prefix) = if s.can_read(take as int) {
            (s.advance(take as int), s.payload(take as int))
        } else {
            (s.skip(take as int), Seq::<u8>::empty())
        };
        (
            if n > take {
                s2.skip(n - take)
            } else {
                s2
            },
            prefix,
        )
    }
}

/// The end of a bin or ext line: the bytes shown, and an ellipsis when the
/// payload holds more.
pub open spec fn payload_tail(total: nat, prefix: Seq<u8>) -> Seq<u8> {
    if total == 0 {
        ">".spec_bytes()
    } else {
        ": ".spec_bytes() + hex(prefix) + if total > prefix.len() {
            "...>".spec_bytes()
        } else {
            ">".spec_bytes()
        }
    }
}

/// A scalar as printed: `null`, `true`, `false`, an integer in decimal, or
/// a float left as its bits.
pub open spec fn scalar_printed(tag: Tag) -> Seq<Printed> {
    match tag {
        Tag::Nil => text("null".spec_bytes()),
        Tag::Bool(b) => text(
            if b {
                "true".spec_bytes()
            } else {
                "false".spec_bytes()
            },
        ),
        Tag::Int(v) => text(signed_decimal(v as int)),
        Tag::Uint(v) => text(decimal(v as nat)),
        Tag::Float(bits) => seq![Printed::Float(bits)],
        Tag::Double(bits) => seq![Printed::Double(bits)],
        _ => Seq::empty(),
    }
}

/// A string of `n` bytes at `s`, quoted and escaped; cut short, it prints
/// as an empty pair of quotes.
pub open spec fn str_printed(s: ReaderView, n: nat) -> Seq<u8> {
    seq![QUOTE] + (if s.can_read(n as int) {
        escaped(s.payload(n as int))
    } else {
        Seq::empty()
    }) + seq![QUOTE]
}

/// The line printed for a bin of `n` bytes that starts with `prefix`.
pub open spec fn bin_line(n: nat, prefix: Seq<u8>) -> Seq<u8> {
    "<binary data of length ".spec_bytes() + decimal(n) + payload_tail(n, prefix)
}

/// The line printed for an ext of type `t` and `n` bytes that starts with
/// `prefix`.
pub open spec fn ext_line(t: i8, n: nat, prefix: Seq<u8>) -> Seq<u8> {
    "<ext data of type ".spec_bytes() + signed_decimal(t as int) + " and length ".spec_bytes()
        + decimal(n) + payload_tail(n, prefix)
}

/// The opening of an array or a map.
pub open spec fn opening(is_map: bool) -> Seq<u8> {
    if is_map {
        "{\n".spec_bytes()
    } else {
        "[\n".spec_bytes()
    }
}

/// The closing of an array or a map, at its own depth.
pub open spec fn closing(depth: nat, is_map: bool) -> Seq<u8> {
    indent(depth) + if is_map {
        "}".spec_bytes()
    } else {
        "]".spec_bytes()
    }
}

/// Printing a compound of `n` elements (pairs) whose header ended at `s1`;
/// the closing is printed only if no error occurred.
pub open spec fn compound_printed(s1: ReaderView, depth: nat, n: int, is_map: bool) -> (
    ReaderView,
    Seq<Printed>,
)
    decreases (if s1.wf() {
        s1.remaining()
    } else {
        0
    }), 2int, 0int,
{
    let (s2, items) = print_items(s1, depth, n, is_map);
    (
        s2,
        text(opening(is_map)) + items + if s2.error == Error::NoError {
            text(closing(depth, is_map))
        } else {
            Seq::empty()
        },
    )
}

/// The next header at `r`, consumed.
#[verifier::opaque]
pub open spec fn next_header(r: ReaderView) -> (ReaderView, Option<Tag>) {
    r.tag_step(true)
}

/// Printing a value that is no array or map, whose header ended at `s1`.
#[verifier::opaque]
pub open spec fn leaf_printed(s1: ReaderView, tag: Tag) -> (ReaderView, Seq<Printed>) {
    match tag {
        Tag::Str(n) => (s1.skip(n as int), text(str_printed(s1, n as nat))),
        Tag::Bin(n) => {
            let (s2, prefix) = prefix_step(s1, n as nat);
            (s2, text(bin_line(n as nat, prefix)))
        },
        Tag::Ext { extension_type, length } => {
            let (s2, prefix) = prefix_step(s1, length as nat);
            (s2, text(ext_line(extension_type, length as nat, prefix)))
        },
        _ => (s1, scalar_printed(tag)),
    }
}

/// Printing the value at `r`, nested `depth` levels deep: the reader after
/// it and the output. Printing stops at the first error, leaving the output
/// it had produced.
pub open spec fn print_value(r: ReaderView, depth: nat) -> (ReaderView, Seq<Printed>)
    decreases (if r.wf() {
        r.remaining()
    } else {
        0
    }), 0int, 0int,
{
    let (s1, t) = next_header(r);
    match t {
        None => (s1, Seq::empty()),
        Some(tag) => if !r.wf() || !s1.wf() || s1.data != r.data || s1.pos <= r.pos {
            (s1, Seq::empty())
        } else {
            match tag {
                Tag::Array(n) => compound_printed(s1, depth, n as int, false),
                Tag::Mapping(n) => compound_printed(s1, depth, n as int, true),
                _ => leaf_printed(s1, tag),
            }
        },
    }
}

/// Printing the last `n` elements of an array (pairs of a map), each on a
/// line of its own at `depth + 1`, separated by commas.
pub open spec fn print_items(r: ReaderView, depth: nat, n: int, is_map: bool) -> (
    ReaderView,
    Seq<Printed>,
)
    decreases (if r.wf() {
        r.remaining()
    } else {
        0
    }), 1int, n,
{
    if n <= 0 || r.error != Error::NoError || !r.wf() {
        (r, Seq::empty())
    } else {
        let (s2, v) = print_value(r, depth + 1);
        let head = text(indent(depth + 1)) + v;
        if s2.error != Error::NoError || !s2.wf() || s2.data != r.data || s2.pos <= r.pos {
            (s2, head)
        } else {
            let sep = text(separator(n));
            if is_map {
                let (s3, v2) = print_value(s2, depth + 1);
                let head2 = head + text(": ".spec_bytes()) + v2;
                if s3.error != Error::NoError || !s3.wf() || s3.data != r.data || s3.pos
                    <= s2.pos {
                    (s3, head2)
                } else {
                    let (s4, rest) = print_items(s3, depth, n - 1, is_map);
                    (s4, head2 + sep + rest)
                }
            } else {
                let (s4, rest) = print_items(s2, depth, n - 1, is_map);
                (s4, head + sep + rest)
            }
        }
    }
}


/// Reads the first bytes of a payload of `length` bytes to show, and skips
/// the rest.
fn read_prefix<'data>(reader: &mut Reader<'data>, length: usize) -> (prefix: &'data [u8])
    requires
        old(reader)@.wf(),
    ensures
        final(reader)@.wf(),
        (final(reader)@, prefix@) == prefix_step(old(reader)@, length as nat),
{
    if length == 0 {
        return slice_empty();
    }
    let take = if length < PRINT_BYTE_COUNT {
        length
    } else {
        PRINT_BYTE_COUNT
    };
    let prefix = match reader.read_bytes(take) {
        Some(bytes) => bytes,
        None => slice_empty(),
    };
    if length > take {
        let _ = reader.skip_bytes(length - take);
    }
    prefix
}

/// An empty slice.
fn slice_empty<'a>() -> (s: &'a [u8])
    ensures
        s@ == Seq::<u8>::empty(),
{
    &[]
}

/// Appends the end of a bin or ext line.
fn push_payload_tail(out: &mut Vec<Printed>, total: usize, prefix: &[u8])
    ensures
        final(out)@ == old(out)@ + text(payload_tail(total as nat, prefix@)),
{
    if total == 0 {
        push_str(out, ">");
        return ;
    }
    push_str(out, ": ");
    push_hex(out, prefix);
    if total > prefix.len() {
        push_str(out, "...>");
    } else {
        push_str(out, ">");
    }
    proof {
        let a = ": ".spec_bytes();
        let h = hex(prefix@);
        let e = if total > prefix@.len() {
            "...>".spec_bytes()
        } else {
            ">".spec_bytes()
        };
        assert(text(a + h + e) =~= text(a) + text(h) + text(e));
    }
}


/// The definition of `print_items`, one step at a time.
proof fn lemma_items_unfold(r: ReaderView, depth: nat, n: int, is_map: bool)
    ensures
        print_items(r, depth, n, is_map) == if n <= 0 || r.error != Error::NoError || !r.wf() {
            (r, Seq::empty())
        } else {
            let (s2, v) = print_value(r, depth + 1);
            let head = text(indent(depth + 1)) + v;
            if s2.error != Error::NoError || !s2.wf() || s2.data != r.data || s2.pos <= r.pos {
                (s2, head)
            } else {
                let sep = text(separator(n));
                if is_map {
                    let (s3, v2) = print_value(s2, depth + 1);
                    let head2 = head + text(": ".spec_bytes()) + v2;
                    if s3.error != Error::NoError || !s3.wf() || s3.data != r.data || s3.pos
                        <= s2.pos {
                        (s3, head2)
                    } else {
                        let (s4, rest) = print_items(s3, depth, n - 1, is_map);
                        (s4, head2 + sep + rest)
                    }
                } else {
                    let (s4, rest) = print_items(s2, depth, n - 1, is_map);
                    (s4, head + sep + rest)
                }
            }
        },
{
}

/// What reading the next header gives.
proof fn lemma_next_header(r: ReaderView)
    requires
        r.wf(),
    ensures
        next_header(r) == r.tag_step(true),
        next_header(r).0.wf(),
        next_header(r).0.data == r.data,
        next_header(r).0.pos >= r.pos,
        r.error != Error::NoError ==> next_header(r) == (r, None::<Tag>),
        r.error == Error::NoError && next_header(r).1 is None ==> next_header(r).0.error
            != Error::NoError,
        r.error == Error::NoError && next_header(r).1 is Some ==> next_header(r).0.error
            == Error::NoError && next_header(r).0.pos > r.pos,
{
    reveal(next_header);
}

/// What printing a leaf gives, and that it keeps the input.
proof fn lemma_leaf(s1: ReaderView, tag: Tag)
    requires
        s1.wf(),
    ensures
        leaf_printed(s1, tag) == match tag {
            Tag::Str(n) => (s1.skip(n as int), text(str_printed(s1, n as nat))),
            Tag::Bin(n) => (
                prefix_step(s1, n as nat).0,
                text(bin_line(n as nat, prefix_step(s1, n as nat).1)),
            ),
            Tag::Ext { extension_type, length } => (
                prefix_step(s1, length as nat).0,
                text(ext_line(extension_type, length as nat, prefix_step(s1, length as nat).1)),
            ),
            _ => (s1, scalar_printed(tag)),
        },
        leaf_printed(s1, tag).0.wf(),
        leaf_printed(s1, tag).0.data == s1.data,
        leaf_printed(s1, tag).0.pos >= s1.pos,
{
    reveal(leaf_printed);
}

/// Printing keeps the input and well-formedness, never moves back, and
/// moves forward unless it fails.
proof fn lemma_print_progress(r: ReaderView, depth: nat)
    requires
        r.wf(),
    ensures
        print_value(r, depth).0.wf(),
        print_value(r, depth).0.data == r.data,
        print_value(r, depth).0.pos >= r.pos,
        print_value(r, depth).0.error == Error::NoError ==> print_value(r, depth).0.pos > r.pos,
    decreases r.remaining(), 0int, 0int,
{
    lemma_next_header(r);
    let (s1, t) = next_header(r);
    match t {
        None => {},
        Some(tag) => {
            if s1.wf() && s1.data == r.data && s1.pos > r.pos {
                match tag {
                    Tag::Array(n) => {
                        lemma_items_progress(s1, depth, n as int, false);
                    },
                    Tag::Mapping(n) => {
                        lemma_items_progress(s1, depth, n as int, true);
                    },
                    _ => {
                        lemma_leaf(s1, tag);
                    },
                }
            }
        },
    }
}

proof fn lemma_items_progress(r: ReaderView, depth: nat, n: int, is_map: bool)
    requires
        r.wf(),
    ensures
        print_items(r, depth, n, is_map).0.wf(),
        print_items(r, depth, n, is_map).0.data == r.data,
        print_items(r, depth, n, is_map).0.pos >= r.pos,
    decreases r.remaining(), 1int, n,
{
    lemma_items_unfold(r, depth, n, is_map);
    if n > 0 && r.error == Error::NoError {
        lemma_print_progress(r, depth + 1);
        let s2 = print_value(r, depth + 1).0;
        if s2.error == Error::NoError {
            if is_map {
                lemma_print_progress(s2, depth + 1);
                let s3 = print_value(s2, depth + 1).0;
                if s3.error == Error::NoError {
                    lemma_items_progress(s3, depth, n - 1, is_map);
                }
            } else {
                lemma_items_progress(s2, depth, n - 1, is_map);
            }
        }
    }
}

/// An open array or map of an iterative print: its depth, how many items
/// (pairs) it still holds counting the one being printed, and, for a map,
/// whether that item's key is the value being printed.
pub struct PrintFrame {
    pub depth: nat,
    pub left: int,
    pub is_map: bool,
    pub in_key: bool,
}

/// What follows an item: a comma unless it was the last, and a newline.
pub open spec fn separator(left: int) -> Seq<u8> {
    if left != 1 {
        ",\n".spec_bytes()
    } else {
        "\n".spec_bytes()
    }
}

/// The rest of a compound once its current item is printed: the other
/// items, and its closing unless an error occurred.
pub open spec fn rest_after_item(r: ReaderView, f: PrintFrame) -> (ReaderView, Seq<Printed>) {
    let (s, items) = print_items(r, f.depth, f.left - 1, f.is_map);
    (
        s,
        text(separator(f.left)) + items + if s.error == Error::NoError {
            text(closing(f.depth, f.is_map))
        } else {
            Seq::empty()
        },
    )
}

/// The rest of a compound once the value being printed in it is done:
/// after a key, its value and the rest; after an item, the rest.
pub open spec fn finish_frame(r: ReaderView, f: PrintFrame) -> (ReaderView, Seq<Printed>) {
    if f.is_map && f.in_key {
        let (s2, v) = print_value(r, f.depth + 1);
        let head = text(": ".spec_bytes()) + v;
        if s2.error != Error::NoError {
            (s2, head)
        } else {
            let (s3, rest) = rest_after_item(s2, f);
            (s3, head + rest)
        }
    } else {
        rest_after_item(r, f)
    }
}

/// What remains to print once a value is done, with the open compounds
/// `frames` (innermost last).
#[verifier::opaque]
pub open spec fn print_pending(r: ReaderView, frames: Seq<PrintFrame>) -> (ReaderView, Seq<Printed>)
    decreases frames.len(),
{
    if frames.len() == 0 {
        (r, Seq::empty())
    } else {
        let (s, o) = finish_frame(r, frames.last());
        if s.error != Error::NoError {
            (s, o)
        } else {
            let (s2, o2) = print_pending(s, frames.drop_last());
            (s2, o + o2)
        }
    }
}

/// Printing a value at `depth`, then what remains with `frames` open.
#[verifier::opaque]
pub open spec fn value_then(r: ReaderView, depth: nat, frames: Seq<PrintFrame>) -> (
    ReaderView,
    Seq<Printed>,
) {
    let (s, v) = print_value(r, depth);
    if s.error != Error::NoError {
        (s, v)
    } else {
        let (s2, o) = print_pending(s, frames);
        (s2, v + o)
    }
}

/// The last `k` items of a compound, its closing unless an error occurred,
/// and then what remains with `frames` open.
#[verifier::opaque]
pub open spec fn items_then(
    r: ReaderView,
    depth: nat,
    k: int,
    is_map: bool,
    frames: Seq<PrintFrame>,
) -> (ReaderView, Seq<Printed>) {
    let (s, items) = print_items(r, depth, k, is_map);
    let closed = items + if s.error == Error::NoError {
        text(closing(depth, is_map))
    } else {
        Seq::empty()
    };
    if s.error != Error::NoError {
        (s, closed)
    } else {
        let (s2, o) = print_pending(s, frames);
        (s2, closed + o)
    }
}

/// The definition of `value_then`.
proof fn lemma_value_then_def(r: ReaderView, depth: nat, frames: Seq<PrintFrame>)
    ensures
        value_then(r, depth, frames) == if print_value(r, depth).0.error != Error::NoError {
            print_value(r, depth)
        } else {
            (
                print_pending(print_value(r, depth).0, frames).0,
                print_value(r, depth).1 + print_pending(print_value(r, depth).0, frames).1,
            )
        },
{
    reveal(value_then);
}

/// The definition of `print_pending`.
proof fn lemma_pending_def(r: ReaderView, frames: Seq<PrintFrame>)
    ensures
        print_pending(r, frames) == if frames.len() == 0 {
            (r, Seq::<Printed>::empty())
        } else if finish_frame(r, frames.last()).0.error != Error::NoError {
            finish_frame(r, frames.last())
        } else {
            (
                print_pending(finish_frame(r, frames.last()).0, frames.drop_last()).0,
                finish_frame(r, frames.last()).1 + print_pending(
                    finish_frame(r, frames.last()).0,
                    frames.drop_last(),
                ).1,
            )
        },
{
    reveal(print_pending);
}

/// Printing the next item of a compound is printing its indentation, and
/// then its first value with the compound open.
#[verifier::rlimit(100)]
#[verifier::spinoff_prover]
proof fn lemma_items_then(r: ReaderView, depth: nat, k: int, is_map: bool, frames: Seq<PrintFrame>)
    requires
        r.wf(),
        r.error == Error::NoError,
        k > 0,
    ensures
        ({
            let f = PrintFrame { depth, left: k, is_map, in_key: is_map };
            let vt = value_then(r, depth + 1, frames.push(f));
            items_then(r, depth, k, is_map, frames) == (vt.0, text(indent(depth + 1)) + vt.1)
        }),
{
    reveal(value_then);
    reveal(print_pending);
    reveal(items_then);
    let f = PrintFrame { depth, left: k, is_map, in_key: is_map };
    let fs = frames.push(f);
    assert(fs.drop_last() =~= frames);
    assert(fs.last() == f);
    lemma_items_unfold(r, depth, k, is_map);
    lemma_print_progress(r, depth + 1);
    let (s2, v) = print_value(r, depth + 1);
    let head = text(indent(depth + 1)) + v;
    if s2.error != Error::NoError {
        assert(print_items(r, depth, k, is_map) == (s2, head));
        assert(head + Seq::<Printed>::empty() =~= head);
    } else {
        let sep = text(separator(k));
        if is_map {
            lemma_print_progress(s2, depth + 1);
            let (s3, v2) = print_value(s2, depth + 1);
            let head2 = head + text(": ".spec_bytes()) + v2;
            if s3.error != Error::NoError {
                assert(print_items(r, depth, k, is_map) == (s3, head2));
                assert(head2 + Seq::<Printed>::empty() =~= text(indent(depth + 1)) + (v + (text(
                    ": ".spec_bytes(),
                ) + v2)));
            } else {
                let (s4, rest) = print_items(s3, depth, k - 1, is_map);
                assert(print_items(r, depth, k, is_map) == (s4, head2 + sep + rest));
                let close = if s4.error == Error::NoError {
                    text(closing(depth, is_map))
                } else {
                    Seq::empty()
                };
                if s4.error != Error::NoError {
                    assert(head2 + sep + rest + close =~= text(indent(depth + 1)) + (v + (text(
                        ": ".spec_bytes(),
                    ) + v2 + (sep + rest + close))));
                } else {
                    let (s5, o) = print_pending(s4, frames);
                    assert(head2 + sep + rest + close + o =~= text(indent(depth + 1)) + (v + (
                    text(": ".spec_bytes()) + v2 + (sep + rest + close) + o)));
                }
            }
        } else {
            let (s4, rest) = print_items(s2, depth, k - 1, is_map);
            assert(print_items(r, depth, k, is_map) == (s4, head + sep + rest));
            let close = if s4.error == Error::NoError {
                text(closing(depth, is_map))
            } else {
                Seq::empty()
            };
            if s4.error != Error::NoError {
                assert(head + sep + rest + close =~= text(indent(depth + 1)) + (v + (sep + rest
                    + close)));
            } else {
                let (s5, o) = print_pending(s4, frames);
                assert(head + sep + rest + close + o =~= text(indent(depth + 1)) + (v + ((sep
                    + rest + close) + o)));
            }
        }
    }
}

/// Once a key is printed, its value follows after a colon.
proof fn lemma_after_key(r: ReaderView, f: PrintFrame, frames: Seq<PrintFrame>)
    requires
        r.wf(),
        r.error == Error::NoError,
        f.is_map,
        f.in_key,
    ensures
        ({
            let fv = PrintFrame { depth: f.depth, left: f.left, is_map: f.is_map, in_key: false };
            let vt = value_then(r, f.depth + 1, frames.push(fv));
            print_pending(r, frames.push(f)) == (vt.0, text(": ".spec_bytes()) + vt.1)
        }),
{
    reveal(value_then);
    reveal(print_pending);
    reveal(items_then);
    let fv = PrintFrame { depth: f.depth, left: f.left, is_map: f.is_map, in_key: false };
    let fs = frames.push(f);
    let fvs = frames.push(fv);
    assert(fs.drop_last() =~= frames);
    assert(fvs.drop_last() =~= frames);
    assert(fs.last() == f);
    assert(fvs.last() == fv);
    let (s2, v) = print_value(r, f.depth + 1);
    let colon = text(": ".spec_bytes());
    if s2.error == Error::NoError {
        let (s3, rest) = rest_after_item(s2, f);
        assert(rest_after_item(s2, fv) == (s3, rest));
        if s3.error == Error::NoError {
            let (s4, o) = print_pending(s3, frames);
            assert(colon + v + rest + o =~= colon + (v + (rest + o)));
        }
    }
}

/// Once an item that is not the last is printed, a separator and the next
/// item's indentation follow, and then its first value.
#[verifier::rlimit(100)]
#[verifier::spinoff_prover]
proof fn lemma_after_item(r: ReaderView, f: PrintFrame, frames: Seq<PrintFrame>)
    requires
        r.wf(),
        r.error == Error::NoError,
        !(f.is_map && f.in_key),
        f.left > 1,
    ensures
        ({
            let fn_ = PrintFrame {
                depth: f.depth,
                left: f.left - 1,
                is_map: f.is_map,
                in_key: f.is_map,
            };
            let vt = value_then(r, f.depth + 1, frames.push(fn_));
            print_pending(r, frames.push(f)) == (
                vt.0,
                text(separator(f.left)) + text(indent(f.depth + 1)) + vt.1,
            )
        }),
{
    reveal(value_then);
    reveal(print_pending);
    reveal(items_then);
    let fs = frames.push(f);
    assert(fs.drop_last() =~= frames);
    assert(fs.last() == f);
    lemma_items_then(r, f.depth, f.left - 1, f.is_map, frames);
    let (s, items) = print_items(r, f.depth, f.left - 1, f.is_map);
    let close = if s.error == Error::NoError {
        text(closing(f.depth, f.is_map))
    } else {
        Seq::empty()
    };
    let sep = text(separator(f.left));
    if s.error == Error::NoError {
        let (s2, o) = print_pending(s, frames);
        assert(sep + items + close + o =~= sep + (items + close + o));
    }
}

/// Once the last item is printed, the compound closes.
proof fn lemma_last_item(r: ReaderView, f: PrintFrame, frames: Seq<PrintFrame>)
    requires
        r.wf(),
        r.error == Error::NoError,
        !(f.is_map && f.in_key),
        f.left == 1,
    ensures
        print_pending(r, frames.push(f)) == (
            print_pending(r, frames).0,
            text(separator(1)) + text(closing(f.depth, f.is_map)) + print_pending(r, frames).1,
        ),
{
    reveal(value_then);
    reveal(print_pending);
    reveal(items_then);
    let fs = frames.push(f);
    assert(fs.drop_last() =~= frames);
    assert(fs.last() == f);
    lemma_items_unfold(r, f.depth, 0, f.is_map);
    assert(text(separator(1)) + Seq::<Printed>::empty() + text(closing(f.depth, f.is_map))
        =~= text(separator(1)) + text(closing(f.depth, f.is_map)));
}

/// Printing an array or a map: its opening, then its items and closing.
proof fn lemma_value_then_compound(r: ReaderView, depth: nat, frames: Seq<PrintFrame>)
    requires
        r.wf(),
        r.error == Error::NoError,
        r.tag_step(true).1 matches Some(t) && (t is Array || t is Mapping),
    ensures
        ({
            let s1 = r.tag_step(true).0;
            let (n, is_map) = match r.tag_step(true).1 {
                Some(Tag::Mapping(n)) => (n as int, true),
                Some(Tag::Array(n)) => (n as int, false),
                _ => (0, false),
            };
            let it = items_then(s1, depth, n, is_map, frames);
            &&& s1.wf()
            &&& s1.error == Error::NoError
            &&& s1.pos > r.pos
            &&& value_then(r, depth, frames) == (it.0, text(opening(is_map)) + it.1)
        }),
{
    reveal(value_then);
    reveal(print_pending);
    reveal(items_then);
    lemma_next_header(r);
    let s1 = r.tag_step(true).0;
    let (n, is_map) = match r.tag_step(true).1 {
        Some(Tag::Mapping(n)) => (n as int, true),
        Some(Tag::Array(n)) => (n as int, false),
        _ => (0, false),
    };
    assert(print_value(r, depth) == compound_printed(s1, depth, n, is_map));
    let (s2, items) = print_items(s1, depth, n, is_map);
    let close = if s2.error == Error::NoError {
        text(closing(depth, is_map))
    } else {
        Seq::empty()
    };
    let op = text(opening(is_map));
    if s2.error == Error::NoError {
        let (s3, o) = print_pending(s2, frames);
        assert(op + items + close + o =~= op + (items + close + o));
    } else {
        assert(op + items + close =~= op + (items + close));
    }
}

/// An empty array or map closes at once.
proof fn lemma_items_none(r: ReaderView, depth: nat, is_map: bool, frames: Seq<PrintFrame>)
    requires
        r.wf(),
        r.error == Error::NoError,
    ensures
        items_then(r, depth, 0, is_map, frames) == (
            print_pending(r, frames).0,
            text(closing(depth, is_map)) + print_pending(r, frames).1,
        ),
{
    reveal(value_then);
    reveal(print_pending);
    reveal(items_then);
    lemma_items_unfold(r, depth, 0, is_map);
    assert(Seq::<Printed>::empty() + text(closing(depth, is_map)) =~= text(closing(depth, is_map)));
}

/// A value printed with nothing open is the value alone.
proof fn lemma_value_then_alone(r: ReaderView, depth: nat)
    ensures
        value_then(r, depth, Seq::empty()) == print_value(r, depth),
{
    reveal(value_then);
    reveal(print_pending);
    reveal(items_then);
    let (s, v) = print_value(r, depth);
    assert(v + Seq::<Printed>::empty() =~= v);
}

/// Text of concatenated bytes is the concatenated text.
pub broadcast proof fn lemma_text_concat(a: Seq<u8>, b: Seq<u8>)
    ensures
        #[trigger] text(a + b) == text(a) + text(b),
{
    assert(text(a + b) =~= text(a) + text(b));
}

/// Appends a scalar.
fn push_scalar(out: &mut Vec<Printed>, tag: Tag)
    ensures
        final(out)@ == old(out)@ + scalar_printed(tag),
{
    match tag {
        Tag::Nil => push_str(out, "null"),
        Tag::Bool(b) => {
            if b {
                push_str(out, "true");
            } else {
                push_str(out, "false");
            }
        },
        Tag::Int(v) => push_signed(out, v),
        Tag::Uint(v) => push_decimal(out, v),
        Tag::Float(bits) => {
            out.push(Printed::Float(bits));
            assert(out@ =~= old(out)@ + seq![Printed::Float(bits)]);
        },
        Tag::Double(bits) => {
            out.push(Printed::Double(bits));
            assert(out@ =~= old(out)@ + seq![Printed::Double(bits)]);
        },
        _ => {
            assert(out@ =~= old(out)@ + Seq::<Printed>::empty());
        },
    }
}

/// Prints a string of `length` bytes whose header was just read.
fn print_str_onto(reader: &mut Reader<'_>, out: &mut Vec<Printed>, length: u32)
    requires
        old(reader)@.wf(),
    ensures
        final(reader)@.wf(),
        final(reader)@ == old(reader)@.skip(length as int),
        final(out)@ == old(out)@ + text(str_printed(old(reader)@, length as nat)),
{
    broadcast use lemma_text_concat;

    push_char(out, QUOTE);
    match reader.read_bytes(length as usize) {
        Some(bytes) => push_escaped(out, bytes),
        None => {},
    }
    push_char(out, QUOTE);
    proof {
        let body = if old(reader)@.can_read(length as int) {
            escaped(old(reader)@.payload(length as int))
        } else {
            Seq::empty()
        };
        assert(out@ =~= old(out)@ + text(seq![QUOTE] + body + seq![QUOTE]));
    }
}

/// Prints a bin of `length` bytes whose header was just read.
fn print_bin_onto(reader: &mut Reader<'_>, out: &mut Vec<Printed>, length: u32)
    requires
        old(reader)@.wf(),
    ensures
        final(reader)@.wf(),
        final(reader)@ == prefix_step(old(reader)@, length as nat).0,
        final(out)@ == old(out)@ + text(
            bin_line(length as nat, prefix_step(old(reader)@, length as nat).1),
        ),
{
    broadcast use lemma_text_concat;

    let prefix = read_prefix(reader, length as usize);
    push_str(out, "<binary data of length ");
    push_decimal(out, length as u64);
    push_payload_tail(out, length as usize, prefix);
    proof {
        let a = "<binary data of length ".spec_bytes();
        let b = decimal(length as nat);
        let c = payload_tail(length as nat, prefix@);
        assert(out@ =~= old(out)@ + text(a + b + c));
    }
}

/// Prints an ext of type `t` and `length` bytes whose header was just read.
fn print_ext_onto(reader: &mut Reader<'_>, out: &mut Vec<Printed>, t: i8, length: u32)
    requires
        old(reader)@.wf(),
    ensures
        final(reader)@.wf(),
        final(reader)@ == prefix_step(old(reader)@, length as nat).0,
        final(out)@ == old(out)@ + text(
            ext_line(t, length as nat, prefix_step(old(reader)@, length as nat).1),
        ),
{
    broadcast use lemma_text_concat;

    let prefix = read_prefix(reader, length as usize);
    push_str(out, "<ext data of type ");
    push_signed(out, t as i64);
    push_str(out, " and length ");
    push_decimal(out, length as u64);
    push_payload_tail(out, length as usize, prefix);
    proof {
        let a = "<ext data of type ".spec_bytes();
        let b = signed_decimal(t as int);
        let c = " and length ".spec_bytes();
        let d = decimal(length as nat);
        let e = payload_tail(length as nat, prefix@);
        assert(out@ =~= old(out)@ + text(a + b + c + d + e));
    }
}

/// An open array or map of the iterative print.
#[derive(Clone, Copy)]
struct Frame {
    depth: usize,
    left: u32,
    is_map: bool,
    in_key: bool,
}

spec fn frames_view(v: Seq<Frame>) -> Seq<PrintFrame> {
    v.map_values(
        |f: Frame| PrintFrame { depth: f.depth as nat, left: f.left as int, is_map: f.is_map, in_key: f.in_key },
    )
}

/// Appends the opening of an array or a map.
fn push_opening(out: &mut Vec<Printed>, is_map: bool)
    ensures
        final(out)@ == old(out)@ + text(opening(is_map)),
{
    if is_map {
        push_str(out, "{\n");
    } else {
        push_str(out, "[\n");
    }
}

/// Appends the closing of an array or a map at `depth`.
fn push_closing(out: &mut Vec<Printed>, depth: usize, is_map: bool)
    ensures
        final(out)@ == old(out)@ + text(closing(depth as nat, is_map)),
{
    broadcast use lemma_text_concat;

    push_indent(out, depth);
    if is_map {
        push_str(out, "}");
    } else {
        push_str(out, "]");
    }
    proof {
        let c = if is_map {
            "}".spec_bytes()
        } else {
            "]".spec_bytes()
        };
        assert(text(indent(depth as nat) + c) == text(indent(depth as nat)) + text(c));
        assert(out@ =~= old(out)@ + text(closing(depth as nat, is_map)));
    }
}

/// Appends the separator after an item.
fn push_separator(out: &mut Vec<Printed>, left: u32)
    ensures
        final(out)@ == old(out)@ + text(separator(left as int)),
{
    if left != 1 {
        push_str(out, ",\n");
    } else {
        push_str(out, "\n");
    }
}

/// What the iterative print does next.
enum Step {
    Stop,
    Start(usize),
    After,
}

/// The bounds that keep depths in range while printing.
spec fn frames_ok(stack: Seq<Frame>, remaining: int) -> bool {
    forall|i: int|
        0 <= i < stack.len() ==> #[trigger] stack[i].depth + 1 + remaining <= usize::MAX
            && stack[i].left >= 1
}

/// The bounds stay met when less input remains.
proof fn lemma_frames_ok_less(stack: Seq<Frame>, r1: int, r2: int)
    requires
        frames_ok(stack, r1),
        r2 <= r1,
    ensures
        frames_ok(stack, r2),
{
    assert forall|i: int| 0 <= i < stack.len() implies #[trigger] stack[i].depth + 1 + r2
        <= usize::MAX && stack[i].left >= 1 by {
        assert(stack[i].depth + 1 + r1 <= usize::MAX);
    }
}

/// The output appended to `out` since it held `len` elements.
spec fn delta(out: Seq<Printed>, len: int) -> Seq<Printed> {
    out.subrange(len, out.len() as int)
}

/// Prints a value that is no array or map, whose header was just read.
fn print_leaf(reader: &mut Reader<'_>, out: &mut Vec<Printed>, tag: Tag)
    requires
        old(reader)@.wf(),
        !(tag is Array || tag is Mapping),
    ensures
        final(reader)@.wf(),
        final(reader)@ == leaf_printed(old(reader)@, tag).0,
        final(out)@.len() >= old(out)@.len(),
        final(out)@.subrange(0, old(out)@.len() as int) == old(out)@,
        delta(final(out)@, old(out)@.len() as int) == leaf_printed(old(reader)@, tag).1,
        final(reader)@.pos >= old(reader)@.pos,
        final(reader)@.data == old(reader)@.data,
{
    proof {
        lemma_leaf(old(reader)@, tag);
    }
    match tag {
        Tag::Str(length) => print_str_onto(reader, out, length),
        Tag::Bin(length) => print_bin_onto(reader, out, length),
        Tag::Ext { extension_type, length } => print_ext_onto(reader, out, extension_type, length),
        _ => push_scalar(out, tag),
    }
    assert(out@.subrange(0, old(out)@.len() as int) =~= old(out)@);
    assert(delta(out@, old(out)@.len() as int) =~= leaf_printed(old(reader)@, tag).1);
}

/// Reads the header of the value to print at depth `d`, and prints the
/// value if it is a leaf, or the opening of the compound it starts.
#[verifier::rlimit(100)]
#[verifier::spinoff_prover]
fn step_start(reader: &mut Reader<'_>, out: &mut Vec<Printed>, stack: &mut Vec<Frame>, d: usize) -> (next: Step)
    requires
        old(reader)@.wf(),
        old(reader)@.error == Error::NoError,
        d + old(reader)@.remaining() <= usize::MAX,
        frames_ok(old(stack)@, old(reader)@.remaining()),
    ensures
        final(reader)@.wf(),
        final(out)@.len() >= old(out)@.len(),
        final(out)@.subrange(0, old(out)@.len() as int) == old(out)@,
        final(reader)@.data == old(reader)@.data,
        final(reader)@.pos >= old(reader)@.pos,
        final(reader)@.remaining() < old(reader)@.remaining() || next is Stop,
        next is Stop || next is After ==> final(stack)@ == old(stack)@,
        match next {
            Step::Stop => value_then(old(reader)@, d as nat, frames_view(old(stack)@)) == (
                final(reader)@,
                delta(final(out)@, old(out)@.len() as int),
            ),
            Step::Start(d2) => {
                &&& final(reader)@.error == Error::NoError
                &&& d2 + final(reader)@.remaining() <= usize::MAX
                &&& frames_ok(final(stack)@, final(reader)@.remaining())
                &&& final(stack)@.len() == old(stack)@.len() + 1
                &&& value_then(old(reader)@, d as nat, frames_view(old(stack)@)) == (
                    value_then(final(reader)@, d2 as nat, frames_view(final(stack)@)).0,
                    delta(final(out)@, old(out)@.len() as int) + value_then(
                        final(reader)@,
                        d2 as nat,
                        frames_view(final(stack)@),
                    ).1,
                )
            },
            Step::After => {
                &&& final(reader)@.error == Error::NoError
                &&& frames_ok(final(stack)@, final(reader)@.remaining())
                &&& final(stack)@ == old(stack)@
                &&& value_then(old(reader)@, d as nat, frames_view(old(stack)@)) == (
                    print_pending(final(reader)@, frames_view(final(stack)@)).0,
                    delta(final(out)@, old(out)@.len() as int) + print_pending(
                        final(reader)@,
                        frames_view(final(stack)@),
                    ).1,
                )
            },
        },
{
    broadcast use lemma_text_concat;

    let ghost r0 = reader@;
    let ghost out0 = out@;
    let ghost fr = frames_view(stack@);
    proof {
        lemma_next_header(r0);
    }
    proof {
        lemma_value_then_def(r0, d as nat, fr);
    }
    let tag = match reader.read_tag() {
        Some(t) => t,
        None => {
            assert(delta(out@, out0.len() as int) =~= Seq::<Printed>::empty());
            return Step::Stop;
        },
    };
    match tag {
        Tag::Array(_) | Tag::Mapping(_) => {
            let (count, is_map) = match tag {
                Tag::Mapping(n) => (n, true),
                Tag::Array(n) => (n, false),
                _ => (0, false),
            };
            proof {
                lemma_value_then_compound(r0, d as nat, fr);
            }
            push_opening(out, is_map);
            if count == 0 {
                push_closing(out, d, is_map);
                proof {
                    lemma_items_none(reader@, d as nat, is_map, fr);
                    assert(delta(out@, out0.len() as int) =~= text(opening(is_map)) + text(
                        closing(d as nat, is_map),
                    ));
                }
                Step::After
            } else {
                push_indent(out, d + 1);
                proof {
                    lemma_items_then(reader@, d as nat, count as int, is_map, fr);
                }
                stack.push(Frame { depth: d, left: count, is_map, in_key: is_map });
                proof {
                    assert(frames_view(stack@) =~= fr.push(
                        PrintFrame { depth: d as nat, left: count as int, is_map, in_key: is_map },
                    ));
                    assert(delta(out@, out0.len() as int) =~= text(opening(is_map)) + text(
                        indent((d + 1) as nat),
                    ));
                    assert forall|i: int| 0 <= i < stack@.len() implies #[trigger] stack@[i].depth
                        + 1 + reader@.remaining() <= usize::MAX && stack@[i].left >= 1 by {
                        if i < stack@.len() - 1 {
                            assert(stack@[i] == old(stack)@[i]);
                        }
                    }
                }
                Step::Start(d + 1)
            }
        },
        _ => {
            let ghost s1 = reader@;
            let ghost st = stack@;
            print_leaf(reader, out, tag);
            proof {
                assert(print_value(r0, d as nat) == leaf_printed(s1, tag));
                assert(reader@.remaining() < r0.remaining());
                assert(stack@ == st);
                assert(st == old(stack)@);
            }
            if reader.error() != Error::NoError {
                return Step::Stop;
            }
            proof {
                lemma_frames_ok_less(st, r0.remaining(), reader@.remaining());
            }
            Step::After
        },
    }
}

/// Goes on after a value was printed, in the innermost open compound.
#[verifier::rlimit(100)]
#[verifier::spinoff_prover]
fn step_after(reader: &mut Reader<'_>, out: &mut Vec<Printed>, stack: &mut Vec<Frame>) -> (next: Step)
    requires
        old(reader)@.wf(),
        old(reader)@.error == Error::NoError,
        frames_ok(old(stack)@, old(reader)@.remaining()),
    ensures
        final(reader)@ == old(reader)@,
        final(out)@.len() >= old(out)@.len(),
        final(out)@.subrange(0, old(out)@.len() as int) == old(out)@,
        frames_ok(final(stack)@, final(reader)@.remaining()),
        match next {
            Step::Stop => {
                &&& old(stack)@.len() == 0
                &&& final(stack)@ == old(stack)@
                &&& final(out)@ == old(out)@
            },
            Step::Start(d2) => {
                &&& d2 + final(reader)@.remaining() <= usize::MAX
                &&& final(stack)@.len() == old(stack)@.len()
                &&& print_pending(old(reader)@, frames_view(old(stack)@)) == (
                    value_then(final(reader)@, d2 as nat, frames_view(final(stack)@)).0,
                    delta(final(out)@, old(out)@.len() as int) + value_then(
                        final(reader)@,
                        d2 as nat,
                        frames_view(final(stack)@),
                    ).1,
                )
            },
            Step::After => {
                &&& final(stack)@.len() + 1 == old(stack)@.len()
                &&& print_pending(old(reader)@, frames_view(old(stack)@)) == (
                    print_pending(final(reader)@, frames_view(final(stack)@)).0,
                    delta(final(out)@, old(out)@.len() as int) + print_pending(
                        final(reader)@,
                        frames_view(final(stack)@),
                    ).1,
                )
            },
        },
{
    let ghost out0 = out@;
    if stack.len() == 0 {
        return Step::Stop;
    }
    let top = stack.len() - 1;
    let f = stack[top];
    let ghost rest = frames_view(stack@).drop_last();
    let ghost pf = PrintFrame {
        depth: f.depth as nat,
        left: f.left as int,
        is_map: f.is_map,
        in_key: f.in_key,
    };
    assert(frames_view(stack@) =~= rest.push(pf));
    assert(stack@[top as int] == f);
    if f.is_map && f.in_key {
        push_str(out, ": ");
        proof {
            lemma_after_key(reader@, pf, rest);
        }
        stack.set(top, Frame { depth: f.depth, left: f.left, is_map: f.is_map, in_key: false });
        proof {
            assert(frames_view(stack@) =~= rest.push(
                PrintFrame { depth: f.depth as nat, left: f.left as int, is_map: f.is_map, in_key: false },
            ));
            assert(delta(out@, out0.len() as int) =~= text(": ".spec_bytes()));
            assert forall|i: int| 0 <= i < stack@.len() implies #[trigger] stack@[i].depth + 1
                + reader@.remaining() <= usize::MAX && stack@[i].left >= 1 by {
                if i != top {
                    assert(stack@[i] == old(stack)@[i]);
                }
            }
        }
        Step::Start(f.depth + 1)
    } else if f.left > 1 {
        push_separator(out, f.left);
        push_indent(out, f.depth + 1);
        proof {
            lemma_after_item(reader@, pf, rest);
        }
        stack.set(top, Frame { depth: f.depth, left: f.left - 1, is_map: f.is_map, in_key: f.is_map });
        proof {
            assert(frames_view(stack@) =~= rest.push(
                PrintFrame {
                    depth: f.depth as nat,
                    left: f.left - 1,
                    is_map: f.is_map,
                    in_key: f.is_map,
                },
            ));
            assert(delta(out@, out0.len() as int) =~= text(separator(f.left as int)) + text(
                indent((f.depth + 1) as nat),
            ));
            assert forall|i: int| 0 <= i < stack@.len() implies #[trigger] stack@[i].depth + 1
                + reader@.remaining() <= usize::MAX && stack@[i].left >= 1 by {
                if i != top {
                    assert(stack@[i] == old(stack)@[i]);
                }
            }
        }
        Step::Start(f.depth + 1)
    } else {
        push_separator(out, f.left);
        push_closing(out, f.depth, f.is_map);
        proof {
            lemma_last_item(reader@, pf, rest);
        }
        stack.pop();
        proof {
            assert(frames_view(stack@) =~= rest);
            assert(delta(out@, out0.len() as int) =~= text(separator(1)) + text(
                closing(f.depth as nat, f.is_map),
            ));
            assert forall|i: int| 0 <= i < stack@.len() implies #[trigger] stack@[i].depth + 1
                + reader@.remaining() <= usize::MAX && stack@[i].left >= 1 by {
                assert(stack@[i] == old(stack)@[i]);
            }
        }
        Step::After
    }
}

/// Prints the value at the reader, nested `depth` levels deep, onto `out`,
/// without recursion; printing stops at the first error.
#[verifier::rlimit(100)]
#[verifier::spinoff_prover]
fn print_element(reader: &mut Reader<'_>, out: &mut Vec<Printed>, depth: usize)
    requires
        old(reader)@.wf(),
        depth + old(reader)@.remaining() <= usize::MAX,
    ensures
        final(reader)@.wf(),
        final(reader)@ == print_value(old(reader)@, depth as nat).0,
        final(out)@ == old(out)@ + print_value(old(reader)@, depth as nat).1,
{
    let ghost r0 = reader@;
    let ghost out0 = out@;
    let ghost total = print_value(r0, depth as nat);
    proof {
        lemma_value_then_alone(r0, depth as nat);
        lemma_next_header(r0);
    }
    if reader.error() != Error::NoError {
        assert(out@ =~= out0 + Seq::<Printed>::empty());
        return ;
    }
    let mut stack: Vec<Frame> = Vec::new();
    let mut next = Step::Start(depth);
    assert(frames_view(stack@) =~= Seq::<PrintFrame>::empty());
    assert(delta(out@, out0.len() as int) =~= Seq::<Printed>::empty());
    loop
        invariant
            old(reader)@ == r0,
            old(out)@ == out0,
            total == print_value(r0, depth as nat),
            reader@.wf(),
            out@.len() >= out0.len(),
            out@.subrange(0, out0.len() as int) == out0,
            !(next is Stop) ==> reader@.error == Error::NoError,
            !(next is Stop) ==> frames_ok(stack@, reader@.remaining()),
            next matches Step::Start(d) ==> d + reader@.remaining() <= usize::MAX && total == (
                value_then(reader@, d as nat, frames_view(stack@)).0,
                delta(out@, out0.len() as int) + value_then(reader@, d as nat, frames_view(stack@)).1,
            ),
            next is After ==> total == (
                print_pending(reader@, frames_view(stack@)).0,
                delta(out@, out0.len() as int) + print_pending(reader@, frames_view(stack@)).1,
            ),
            next is Stop ==> total == (reader@, delta(out@, out0.len() as int)),
        decreases reader@.remaining(), 2 * stack@.len() + match next {
            Step::Stop => 0int,
            Step::Start(_) => 1int,
            Step::After => 2int,
        },
    {
        let ghost acc = delta(out@, out0.len() as int);
        let ghost outb = out@;
        match next {
            Step::Stop => {
                assert(out@ =~= out0 + delta(out@, out0.len() as int));
                return ;
            },
            Step::Start(d) => {
                let ghost rb = reader@;
                let ghost sb = stack@;
                next = step_start(reader, out, &mut stack, d);
                proof {
                    if next is Stop {
                        assert(value_then(rb, d as nat, frames_view(sb)) == (
                            reader@,
                            delta(out@, outb.len() as int),
                        ));
                        assert(delta(out@, out0.len() as int) =~= acc + delta(out@, outb.len() as int));
                    }
                }
            },
            Step::After => {
                let ghost sb = stack@;
                next = step_after(reader, out, &mut stack);
                proof {
                    if next is Stop {
                        assert(frames_view(sb) =~= Seq::<PrintFrame>::empty());
                        assert(frames_view(stack@) =~= Seq::<PrintFrame>::empty());
                        lemma_pending_def(reader@, Seq::<PrintFrame>::empty());
                        assert(out@ == outb);
                        assert(delta(out@, out0.len() as int) == acc);
                        assert(delta(out@, out0.len() as int) =~= acc + Seq::<Printed>::empty());
                    }
                }
            },
        }
        proof {
            assert(delta(out@, out0.len() as int) =~= acc + delta(out@, outb.len() as int));
        }
    }
}

/// The name of an error, as printed.
pub open spec fn error_name(e: Error) -> Seq<u8> {
    match e {
        Error::NoError => "mpack_ok".spec_bytes(),
        Error::Io => "mpack_error_io".spec_bytes(),
        Error::Invalid => "mpack_error_invalid".spec_bytes(),
        Error::Unsupported => "mpack_error_unsupported".spec_bytes(),
        Error::Type => "mpack_error_type".spec_bytes(),
        Error::TooBig => "mpack_error_too_big".spec_bytes(),
        Error::Memory => "mpack_error_memory".spec_bytes(),
        Error::Bug => "mpack_error_bug".spec_bytes(),
        Error::Data => "mpack_error_data".spec_bytes(),
        Error::Eof => "mpack_error_eof".spec_bytes(),
    }
}

/// The name of an error.
pub fn error_str(e: Error) -> (s: &'static str)
    ensures
        s.spec_bytes() == error_name(e),
{
    match e {
        Error::NoError => "mpack_ok",
        Error::Io => "mpack_error_io",
        Error::Invalid => "mpack_error_invalid",
        Error::Unsupported => "mpack_error_unsupported",
        Error::Type => "mpack_error_type",
        Error::TooBig => "mpack_error_too_big",
        Error::Memory => "mpack_error_memory",
        Error::Bug => "mpack_error_bug",
        Error::Data => "mpack_error_data",
        Error::Eof => "mpack_error_eof",
    }
}

/// What follows a printed message: the error that stopped it, or how many
/// bytes remain after it.
pub open spec fn footer(s: ReaderView) -> Seq<u8> {
    if s.error != Error::NoError {
        "\n<mpack parsing error ".spec_bytes() + error_name(s.error) + ">".spec_bytes()
    } else if s.remaining() > 0 {
        "\n<".spec_bytes() + decimal(s.remaining() as nat) + " extra bytes at end of message>".spec_bytes()
    } else {
        Seq::empty()
    }
}

/// A message printed at `depth`: its indentation, its first value, and the
/// footer.
pub open spec fn message_printed(d: Seq<u8>, depth: nat) -> Seq<Printed> {
    let (s, v) = print_value(ReaderView { data: d, pos: 0, error: Error::NoError }, depth);
    text(indent(depth)) + v + text(footer(s))
}

/// Prints the first MessagePack value of `data`, indented `depth` levels,
/// followed by the error that stopped it or the number of bytes left after
/// it.
pub fn print_message(data: &[u8], depth: usize) -> (out: Vec<Printed>)
    requires
        data@.len() + depth <= usize::MAX,
    ensures
        out@ == message_printed(data@, depth as nat),
{
    broadcast use lemma_text_concat;

    let mut out: Vec<Printed> = Vec::new();
    push_indent(&mut out, depth);
    let mut reader = Reader::new(data);
    let ghost r0 = reader@;
    let ghost out0 = out@;
    print_element(&mut reader, &mut out, depth);
    let ghost v = print_value(r0, depth as nat).1;
    let ghost s = reader@;
    let ghost base = out@;
    if reader.error() != Error::NoError {
        push_str(&mut out, "\n<mpack parsing error ");
        push_str(&mut out, error_str(reader.error()));
        push_str(&mut out, ">");
    } else if reader.remaining() > 0 {
        let remaining = reader.remaining();
        push_str(&mut out, "\n<");
        push_decimal(&mut out, remaining as u64);
        push_str(&mut out, " extra bytes at end of message>");
    }
    assert(out@ =~= base + text(footer(s)));
    assert(out0 =~= Seq::<Printed>::empty() + text(indent(depth as nat)));
    out
}

/// The value encoded at node `i` of tree `t`, printed at `depth`: the
/// printout of the input read from the node's header on.
pub open spec fn node_text(t: TreeView, i: int, depth: nat) -> Seq<Printed> {
    print_value(
        ReaderView { data: t.data.subrange(t.nodes[i].start, t.data.len() as int), pos: 0, error: Error::NoError },
        depth,
    ).1
}

/// Whether `node` names a node of `t` whose header lies within the input.
pub open spec fn node_in_tree(t: TreeView, node: usize) -> bool {
    node < t.nodes.len() && 0 <= t.nodes[node as int].start <= t.data.len()
}

/// A node printed on its own: the node, or an error marker when the tree
/// has an error or the handle names none of its nodes.
pub open spec fn node_printed(t: TreeView, node: usize) -> Seq<Printed> {
    if t.error != Error::NoError || !node_in_tree(t, node) {
        text("<mpack node error>".spec_bytes())
    } else {
        node_text(t, node as int, 0)
    }
}

/// Prints the value at `node`, nested `depth` levels deep, onto `out`.
pub fn print_node_to_vec(tree: &Tree<'_>, node: Node, out: &mut Vec<Printed>, depth: usize)
    requires
        node_in_tree(tree@, node@),
        tree@.data.len() + depth <= usize::MAX,
    ensures
        final(out)@ == old(out)@ + node_text(tree@, node@ as int, depth as nat),
{
    let data = tree.input();
    let start = match tree.node_start(node) {
        Some(s) => s,
        None => 0,
    };
    let bytes = slice_subrange(data, start, data.len());
    let mut reader = Reader::new(bytes);
    print_element(&mut reader, out, depth);
}

/// Prints the value at `node` of `tree`; a tree with an error, or a handle
/// that names none of its nodes, prints as `<mpack node error>`.
pub fn print_node(tree: &Tree<'_>, node: Node) -> (out: Vec<Printed>)
    ensures
        out@ == node_printed(tree@, node@),
{
    let mut out: Vec<Printed> = Vec::new();
    let data = tree.input();
    let valid = match tree.node_start(node) {
        Some(s) => s <= data.len(),
        None => false,
    };
    if tree.error() != Error::NoError || !valid {
        push_str(&mut out, "<mpack node error>");
        assert(out@ =~= text("<mpack node error>".spec_bytes()));
        return out;
    }
    assert(data@.len() <= usize::MAX);
    print_node_to_vec(tree, node, &mut out, 0);
    assert(out@ =~= node_text(tree@, node@ as int, 0));
    out
}

/// `text` copied into a buffer `b` as a NUL-terminated string: as many of
/// its bytes as fit before a final NUL, a NUL after them and a NUL in the
/// last byte, the bytes between left as they were; an empty buffer stays.
pub open spec fn buffer_copy(text: Seq<u8>, b: Seq<u8>) -> Seq<u8> {
    if b.len() == 0 {
        b
    } else {
        let c = if text.len() < b.len() - 1 {
            text.len() as int
        } else {
            b.len() - 1
        };
        Seq::new(
            b.len(),
            |i: int|
                if i < c {
                    text[i]
                } else if i == c || i == b.len() - 1 {
                    0u8
                } else {
                    b[i]
                },
        )
    }
}

/// Copies printed text into `buffer` as a NUL-terminated string, cut to
/// leave room for the NUL (see `buffer_copy`).
pub fn copy_to_buffer(text: &[u8], buffer: &mut [u8])
    ensures
        final(buffer)@ == buffer_copy(text@, old(buffer)@),
{
    let n = buffer.len();
    if n == 0 {
        return;
    }
    let c = if text.len() < n - 1 {
        text.len()
    } else {
        n - 1
    };
    let mut i: usize = 0;
    while i < c
        invariant
            c < n,
            c <= text@.len(),
            i <= c,
            buffer@.len() == n,
            n == old(buffer)@.len(),
            forall|k: int| 0 <= k < i ==> buffer@[k] == text@[k],
            forall|k: int| i <= k < n ==> buffer@[k] == old(buffer)@[k],
        decreases c - i,
    {
        buffer[i] = text[i];
        i = i + 1;
    }
    buffer[c] = 0;
    buffer[n - 1] = 0;
    assert(buffer@ =~= buffer_copy(text@, old(buffer)@));
}

/// Printing the root of a tree parsed without error from `d` gives the same
/// text as printing the first value of `d` with a reader; so a printed
/// message is its root node's printout followed by the footer.
pub proof fn law_root_prints_as_data(d: Seq<u8>, max_nodes: Option<usize>)
    requires
        d.len() <= usize::MAX,
        tree_of(d, max_nodes).error == Error::NoError,
    ensures
        node_printed(tree_of(d, max_nodes), 0) == print_value(
            ReaderView { data: d, pos: 0, error: Error::NoError },
            0,
        ).1,
        message_printed(d, 0) == node_printed(tree_of(d, max_nodes), 0) + text(
            footer(print_value(ReaderView { data: d, pos: 0, error: Error::NoError }, 0).0),
        ),
{
    law_parsed_tree_shape(d, max_nodes);
    let t = tree_of(d, max_nodes);
    assert(t.data.subrange(0, t.data.len() as int) =~= d);
    assert(text(indent(0)) =~= Seq::<Printed>::empty()) by {
        reveal_with_fuel(indent, 2);
    }
    let v = print_value(ReaderView { data: d, pos: 0, error: Error::NoError }, 0).1;
    assert(Seq::<Printed>::empty() + v =~= v);
}

} // verus!
