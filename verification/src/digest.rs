//! Digests of how the codec reads a message: one fixed-size record per value
//! met, in the order met, with the sticky error and the bytes taken. Two
//! decoders that agree on every input give equal digests.

use vstd::prelude::*;
use crate::common::{tag_kind, Error, Number, Tag, Type};
use vstd::slice::slice_subrange;
use crate::node::{ext_len, law_parsed_tree_shape, tree_of, Node, Tree, TreeView};
use crate::reader::{
    tag_array, tag_bin, tag_double_bits, tag_ext, tag_float_bits, tag_map, tag_number, tag_str, Reader,
    ReaderView,
};
use crate::endian::{append_slice, lemma_pow256_values, pow256};
use crate::expect::{
    bin_size_step, bool_byte, buf_step, byte_step, count_step, cstr_step, ext_buf_step, filled, int_step,
    key_bytes, key_cstr_step, key_uint_step, match_step, nil_byte, or_nil_step, range_step, str_match_step,
    str_step, then_check, timestamp_step, uint_step, ExpectCompound,
};
use crate::expect;
use vstd::utf8::valid_utf8;
use crate::wire::{
    array_header, bin_header, ext_header, f32_header, f64_header, int_header, map_header, str_header,
    uint_header,
};
use crate::writer::{GrowView, GrowableWriter};
use crate::roundtrip::{lemma_read_header, lemma_tag_header_decodes};

verus! {

/// Most records a digest holds.
pub const MAX_RECORDS: usize = 4096;

/// Bytes in one record.
pub const RECORD_SIZE: usize = 16;

/// Deepest nesting a digest follows.
pub const DEPTH_LIMIT: usize = 1024;

/// Longest input a digest looks at; later bytes are ignored.
pub const MAX_INPUT_LEN: usize = 65536;

/// Type code of nil in a record.
pub const TYPE_NIL: u8 = 1;
/// Type code of a boolean in a record.
pub const TYPE_BOOL: u8 = 2;
/// Type code of a signed integer in a record.
pub const TYPE_INT: u8 = 3;
/// Type code of an unsigned integer in a record.
pub const TYPE_UINT: u8 = 4;
/// Type code of a float32 in a record.
pub const TYPE_FLOAT: u8 = 5;
/// Type code of a float64 in a record.
pub const TYPE_DOUBLE: u8 = 6;
/// Type code of a string in a record.
pub const TYPE_STR: u8 = 7;
/// Type code of binary data in a record.
pub const TYPE_BIN: u8 = 8;
/// Type code of an array in a record.
pub const TYPE_ARRAY: u8 = 9;
/// Type code of a map in a record.
pub const TYPE_MAP: u8 = 10;
/// Type code of an extension value in a record.
pub const TYPE_EXT: u8 = 11;

/// A digest: the error code, the bytes taken (0 on an error), how many
/// records there are, whether records were dropped for want of room, and
/// the records, `RECORD_SIZE` bytes each.
#[derive(Clone, Debug, PartialEq, Eq)]
pub struct Digest {
    pub error: i32,
    pub bytes_used: u32,
    pub record_count: u32,
    pub truncated: u32,
    pub records: Vec<u8>,
}

/// The numeric code of an error; codes start at 2 after success.
pub open spec fn error_code(e: Error) -> i32 {
    match e {
        Error::NoError => 0,
        Error::Io => 2,
        Error::Invalid => 3,
        Error::Unsupported => 4,
        Error::Type => 5,
        Error::TooBig => 6,
        Error::Memory => 7,
        Error::Bug => 8,
        Error::Data => 9,
        Error::Eof => 10,
    }
}

/// The numeric code of an error.
pub fn error_to_c(error: Error) -> (code: i32)
    ensures
        code == error_code(error),
{
    match error {
        Error::NoError => 0,
        Error::Io => 2,
        Error::Invalid => 3,
        Error::Unsupported => 4,
        Error::Type => 5,
        Error::TooBig => 6,
        Error::Memory => 7,
        Error::Bug => 8,
        Error::Data => 9,
        Error::Eof => 10,
    }
}

/// The numeric code of a type in a record.
pub open spec fn type_code(kind: Type) -> u8 {
    match kind {
        Type::Nil => TYPE_NIL,
        Type::Bool => TYPE_BOOL,
        Type::Int => TYPE_INT,
        Type::Uint => TYPE_UINT,
        Type::Float => TYPE_FLOAT,
        Type::Double => TYPE_DOUBLE,
        Type::Str => TYPE_STR,
        Type::Bin => TYPE_BIN,
        Type::Array => TYPE_ARRAY,
        Type::Mapping => TYPE_MAP,
        Type::Ext => TYPE_EXT,
    }
}

/// The numeric code of a type in a record.
fn type_to_c(kind: Type) -> (code: u8)
    ensures
        code == type_code(kind),
{
    match kind {
        Type::Nil => TYPE_NIL,
        Type::Bool => TYPE_BOOL,
        Type::Int => TYPE_INT,
        Type::Uint => TYPE_UINT,
        Type::Float => TYPE_FLOAT,
        Type::Double => TYPE_DOUBLE,
        Type::Str => TYPE_STR,
        Type::Bin => TYPE_BIN,
        Type::Array => TYPE_ARRAY,
        Type::Mapping => TYPE_MAP,
        Type::Ext => TYPE_EXT,
    }
}

/// The 32-bit FNV-1a hash of `s`.
pub open spec fn fnv(s: Seq<u8>) -> u32
    decreases s.len(),
{
    if s.len() == 0 {
        2166136261u32
    } else {
        (fnv(s.drop_last()) ^ (s.last() as u32)).wrapping_mul(16777619u32)
    }
}

/// The 32-bit FNV-1a hash of `data`.
fn fnv1a32(data: &[u8]) -> (hash: u32)
    ensures
        hash == fnv(data@),
{
    let mut hash: u32 = 2_166_136_261u32;
    let mut i: usize = 0;
    while i < data.len()
        invariant
            i <= data.len(),
            hash == fnv(data@.subrange(0, i as int)),
        decreases data.len() - i,
    {
        proof {
            let next = data@.subrange(0, i + 1);
            assert(next.drop_last() =~= data@.subrange(0, i as int));
            assert(next.last() == data@[i as int]);
        }
        hash = (hash ^ (data[i] as u32)).wrapping_mul(16_777_619u32);
        i = i + 1;
    }
    assert(data@.subrange(0, data.len() as int) =~= data@);
    hash
}

/// The `n` low-order bytes of `v`, least significant first.
pub open spec fn le_bytes(v: nat, n: nat) -> Seq<u8>
    decreases n,
{
    if n == 0 {
        Seq::empty()
    } else {
        seq![(v % 256) as u8] + le_bytes(v / 256, (n - 1) as nat)
    }
}

/// Appends the `n` low-order bytes of `v`, least significant first.
fn push_le(out: &mut Vec<u8>, v: u64, n: usize)
    ensures
        final(out)@ == old(out)@ + le_bytes(v as nat, n as nat),
{
    let mut x: u64 = v;
    let mut i: usize = 0;
    while i < n
        invariant
            i <= n,
            out@ + le_bytes(x as nat, (n - i) as nat) == old(out)@ + le_bytes(v as nat, n as nat),
        decreases n - i,
    {
        let ghost before = out@;
        let ghost k = (n - i) as nat;
        out.push((x % 256) as u8);
        proof {
            assert(le_bytes(x as nat, k) == seq![(x as nat % 256) as u8] + le_bytes(
                x as nat / 256,
                (k - 1) as nat,
            ));
            assert(out@ + le_bytes(x as nat / 256, (k - 1) as nat) =~= before + le_bytes(
                x as nat,
                k,
            ));
        }
        x = x / 256;
        i = i + 1;
    }
    assert(le_bytes(x as nat, 0) =~= Seq::<u8>::empty());
    assert(out@ =~= out@ + le_bytes(x as nat, 0));
}

/// One record: type, detail byte, two zero bytes, the value and the
/// payload hash, little-endian.
pub open spec fn record(type_: u8, aux: u8, value: u64, hash: u32) -> Seq<u8> {
    seq![type_, aux, 0u8, 0u8] + le_bytes(value as nat, 8) + le_bytes(hash as nat, 4)
}

/// The records of a digest being built, how many there are, and whether one
/// was dropped for want of room.
pub struct Records {
    pub bytes: Seq<u8>,
    pub count: nat,
    pub truncated: bool,
}

impl Records {
    /// Adding a record, or marking the records truncated when they are full.
    pub open spec fn add(self, type_: u8, aux: u8, value: u64, hash: u32) -> Records {
        if self.count >= MAX_RECORDS {
            Records { bytes: self.bytes, count: self.count, truncated: true }
        } else {
            Records {
                bytes: self.bytes + record(type_, aux, value, hash),
                count: self.count + 1,
                truncated: self.truncated,
            }
        }
    }
}

/// No records yet.
pub open spec fn no_records() -> Records {
    Records { bytes: Seq::empty(), count: 0, truncated: false }
}

/// A digest with the given error, bytes taken and records.
pub open spec fn digest_of(error: Error, used: int, recs: Records) -> (i32, u32, u32, u32, Seq<u8>) {
    (
        error_code(error),
        if error_code(error) != 0 {
            0u32
        } else {
            used as u32
        },
        recs.count as u32,
        if recs.truncated {
            1u32
        } else {
            0u32
        },
        recs.bytes,
    )
}

impl Digest {
    /// The records of the digest.
    pub open spec fn recs(self) -> Records {
        Records { bytes: self.records@, count: self.record_count as nat, truncated: self.truncated != 0 }
    }

    /// The record count is within room and the truncation flag is 0 or 1.
    pub open spec fn wf(self) -> bool {
        self.record_count <= MAX_RECORDS && self.truncated <= 1
    }

    /// The digest's fields.
    pub open spec fn fields(self) -> (i32, u32, u32, u32, Seq<u8>) {
        (self.error, self.bytes_used, self.record_count, self.truncated, self.records@)
    }

    /// An empty digest.
    pub fn new() -> (d: Self)
        ensures
            d.wf(),
            d.recs() == no_records(),
            d.error == 0,
            d.bytes_used == 0,
    {
        Digest { error: 0, bytes_used: 0, record_count: 0, truncated: 0, records: Vec::new() }
    }

    /// Adds a record; false, with the digest marked truncated, when full.
    pub fn push(&mut self, type_: u8, aux: u8, value: u64, payload_hash: u32) -> (ok: bool)
        requires
            old(self).wf(),
        ensures
            ok == (old(self).record_count < MAX_RECORDS),
            final(self).recs() == old(self).recs().add(type_, aux, value, payload_hash),
            final(self).wf(),
            final(self).error == old(self).error,
            final(self).bytes_used == old(self).bytes_used,
    {
        if self.record_count as usize >= MAX_RECORDS {
            self.truncated = 1;
            return false;
        }
        self.records.push(type_);
        self.records.push(aux);
        self.records.push(0);
        self.records.push(0);
        push_le(&mut self.records, value, 8);
        push_le(&mut self.records, payload_hash as u64, 4);
        self.record_count = self.record_count + 1;
        proof {
            assert(self.records@ =~= old(self).records@ + record(type_, aux, value, payload_hash));
        }
        true
    }

    /// Fills in the error and the bytes taken at the end of a digest.
    pub fn finish(&mut self, error: Error, used: usize)
        requires
            old(self).wf(),
        ensures
            final(self).fields() == digest_of(error, used as int, old(self).recs()),
    {
        self.bytes_used = used as u32;
        self.error = error_to_c(error);
        if self.error != 0 {
            self.bytes_used = 0;
        }
    }
}

/// What a record says of a tag: its type code, detail byte, value, and the
/// length of the payload to hash, if it has one.
pub open spec fn tag_record(tag: Tag) -> (u8, u8, u64, Option<u32>) {
    match tag {
        Tag::Nil => (TYPE_NIL, 0, 0, None),
        Tag::Bool(v) => (TYPE_BOOL, if v {
            1u8
        } else {
            0u8
        }, 0, None),
        Tag::Int(v) => (TYPE_INT, 0, v as u64, None),
        Tag::Uint(v) => (TYPE_UINT, 0, v, None),
        Tag::Float(bits) => (TYPE_FLOAT, 0, bits as u64, None),
        Tag::Double(bits) => (TYPE_DOUBLE, 0, bits, None),
        Tag::Str(length) => (TYPE_STR, 0, length as u64, Some(length)),
        Tag::Bin(length) => (TYPE_BIN, 0, length as u64, Some(length)),
        Tag::Array(count) => (TYPE_ARRAY, 0, count as u64, None),
        Tag::Mapping(count) => (TYPE_MAP, 0, count as u64, None),
        Tag::Ext { extension_type, length } => (TYPE_EXT, extension_type as u8, length as u64, Some(length)),
    }
}

/// What a record says of a tag.
fn encode_tag(tag: Tag) -> (r: (u8, u8, u64, Option<u32>))
    ensures
        r == tag_record(tag),
{
    match tag {
        Tag::Nil => (TYPE_NIL, 0, 0, None),
        Tag::Bool(value) => (TYPE_BOOL, if value {
            1
        } else {
            0
        }, 0, None),
        Tag::Int(value) => (TYPE_INT, 0, value as u64, None),
        Tag::Uint(value) => (TYPE_UINT, 0, value, None),
        Tag::Float(bits) => (TYPE_FLOAT, 0, bits as u64, None),
        Tag::Double(bits) => (TYPE_DOUBLE, 0, bits, None),
        Tag::Str(length) => (TYPE_STR, 0, length as u64, Some(length)),
        Tag::Bin(length) => (TYPE_BIN, 0, length as u64, Some(length)),
        Tag::Array(count) => (TYPE_ARRAY, 0, count as u64, None),
        Tag::Mapping(count) => (TYPE_MAP, 0, count as u64, None),
        Tag::Ext { extension_type, length } => (TYPE_EXT, extension_type as u8, length as u64, Some(length)),
    }
}

/// The input a digest looks at: its first `MAX_INPUT_LEN` bytes.
pub open spec fn capped(d: Seq<u8>) -> Seq<u8> {
    if d.len() > MAX_INPUT_LEN {
        d.subrange(0, MAX_INPUT_LEN as int)
    } else {
        d
    }
}

/// The first `MAX_INPUT_LEN` bytes of `data`.
fn cap_input(data: &[u8]) -> (d: &[u8])
    ensures
        d@ == capped(data@),
{
    if data.len() > MAX_INPUT_LEN {
        slice_subrange(data, 0, MAX_INPUT_LEN)
    } else {
        data
    }
}

/// A digest of a read under way: the reader, the records, whether the
/// top-level value is still to be read, and for each open array or map the
/// number of elements it still holds, innermost last.
pub struct ReadState {
    pub r: ReaderView,
    pub recs: Records,
    pub need: bool,
    pub stack: Seq<u32>,
}

/// `stack` without the finished compounds at its end.
pub open spec fn pop_done(stack: Seq<u32>) -> Seq<u32>
    decreases stack.len(),
{
    if stack.len() > 0 && stack.last() == 0 {
        pop_done(stack.drop_last())
    } else {
        stack
    }
}

/// The open compounds after an element was counted against the innermost
/// one (or as the top-level value, when `need` is set).
pub open spec fn count_element(stack: Seq<u32>, need: bool) -> Seq<u32> {
    if need {
        stack
    } else {
        stack.update(stack.len() - 1, (stack.last() - 1) as u32)
    }
}

/// The open compounds after an element with `tag` was counted: an array or
/// a map opens with its element count (two per map pair), and finished
/// compounds close; `None` for a map too large to count.
pub open spec fn open_element(stack: Seq<u32>, tag: Tag) -> Option<Seq<u32>> {
    match tag {
        Tag::Array(c) => Some(pop_done(stack.push(c))),
        Tag::Mapping(c) => if 2 * c > u32::MAX {
            None
        } else {
            Some(pop_done(stack.push((2 * c) as u32)))
        },
        _ => Some(pop_done(stack)),
    }
}

/// One element read and recorded: the header, then the payload it
/// announces, whose bytes are hashed; the element is counted against the
/// innermost open compound (or as the top-level value), and an array or map
/// opens with its element count. The flag tells whether reading goes on:
/// it stops at an error, when the records are full, at nesting deeper than
/// `DEPTH_LIMIT`, and at a map too large to count.
pub open spec fn read_step(s: ReadState) -> (ReadState, bool) {
    if s.r.error != Error::NoError || s.recs.truncated {
        (s, false)
    } else if s.stack.len() >= DEPTH_LIMIT {
        (ReadState { r: s.r.flag(Error::TooBig), recs: s.recs, need: s.need, stack: s.stack }, false)
    } else {
        let (r1, t) = s.r.tag_step(true);
        match t {
            None => (ReadState { r: r1, recs: s.recs, need: s.need, stack: s.stack }, false),
            Some(tag) => {
                let (type_, aux, value, plen) = tag_record(tag);
                let len: int = match plen {
                    Some(l) => l as int,
                    None => 0,
                };
                let r2 = if plen is Some {
                    r1.skip(len)
                } else {
                    r1
                };
                let hash = if plen is Some {
                    fnv(r1.payload(len))
                } else {
                    0u32
                };
                let recs = s.recs.add(type_, aux, value, hash);
                if plen is Some && !r1.can_read(len) {
                    (ReadState { r: r2, recs: s.recs, need: s.need, stack: s.stack }, false)
                } else if s.recs.count >= MAX_RECORDS {
                    (ReadState { r: r2, recs, need: s.need, stack: s.stack }, false)
                } else {
                    let st1 = count_element(s.stack, s.need);
                    match open_element(st1, tag) {
                        Some(st) => (ReadState { r: r2, recs, need: false, stack: st }, true),
                        None => (ReadState { r: r2.flag(Error::TooBig), recs, need: false, stack: st1 }, false),
                    }
                }
            },
        }
    }
}
/// Reading and recording elements while the top-level value is unread or a
/// compound is open, until a step stops.
pub open spec fn read_run(s: ReadState) -> ReadState
    decreases s.r.remaining(),
{
    if !(s.need || s.stack.len() > 0) {
        s
    } else {
        let (s2, go) = read_step(s);
        if go && 0 <= s2.r.remaining() < s.r.remaining() {
            read_run(s2)
        } else {
            s2
        }
    }
}

/// The digest of reading the first value of `d` element by element.
pub open spec fn reader_digest(d: Seq<u8>) -> (i32, u32, u32, u32, Seq<u8>) {
    let s = read_run(
        ReadState {
            r: ReaderView { data: capped(d), pos: 0, error: Error::NoError },
            recs: no_records(),
            need: true,
            stack: Seq::empty(),
        },
    );
    digest_of(s.r.error, s.r.pos, s.recs)
}

/// The state of a digest of a read, from the reader, the digest, the count
/// of top-level values still to read and the open compounds.
spec fn read_state(r: ReaderView, out: Digest, need: i32, stack: Seq<u32>) -> ReadState {
    ReadState { r, recs: out.recs(), need: need > 0, stack }
}

/// Removes the finished compounds at the end of `stack`.
fn pop_finished(stack: &mut Vec<u32>)
    ensures
        final(stack)@ == pop_done(old(stack)@),
        final(stack)@.len() > 0 ==> final(stack)@.last() != 0,
{
    while stack.len() > 0 && stack[stack.len() - 1] == 0
        invariant
            pop_done(stack@) == pop_done(old(stack)@),
        decreases stack.len(),
    {
        let ghost before = stack@;
        stack.pop();
        proof {
            assert(stack@ =~= before.drop_last());
        }
    }
}

/// Counts an element with `tag` and opens it if it is a compound; false
/// for a map too large to count, with `stack` left counted only.
fn track_element(stack: &mut Vec<u32>, need: &mut i32, tag: Tag) -> (ok: bool)
    requires
        0 <= *old(need) <= 1,
        *old(need) == 0 ==> old(stack)@.len() > 0 && old(stack)@.last() >= 1,
    ensures
        *final(need) == 0,
        match open_element(count_element(old(stack)@, *old(need) > 0), tag) {
            Some(st) => ok && final(stack)@ == st,
            None => !ok && final(stack)@ == count_element(old(stack)@, *old(need) > 0),
        },
        ok ==> final(stack)@.len() > 0 ==> final(stack)@.last() >= 1,
{
    if *need > 0 {
        *need = *need - 1;
    } else {
        let top = stack.len() - 1;
        let left = stack[top];
        stack.set(top, left - 1);
    }
    match tag {
        Tag::Array(count) => {
            stack.push(count);
        },
        Tag::Mapping(count) => {
            if count > u32::MAX / 2 {
                return false;
            }
            stack.push(count * 2);
        },
        _ => {},
    }
    pop_finished(stack);
    true
}

/// Reads and records one element; false when reading stops.
fn read_element(reader: &mut Reader<'_>, out: &mut Digest, stack: &mut Vec<u32>, need: &mut i32) -> (go:
    bool)
    requires
        old(reader)@.wf(),
        old(out).wf(),
        0 <= *old(need) <= 1,
        *old(need) > 0 || old(stack)@.len() > 0,
        old(stack)@.len() > 0 ==> old(stack)@.last() >= 1,
    ensures
        final(reader)@.wf(),
        final(reader)@.data == old(reader)@.data,
        final(out).wf(),
        0 <= *final(need) <= 1,
        go ==> final(stack)@.len() > 0 ==> final(stack)@.last() >= 1,
        go ==> final(reader)@.remaining() < old(reader)@.remaining(),
        (read_state(final(reader)@, *final(out), *final(need), final(stack)@), go) == read_step(
            read_state(old(reader)@, *old(out), *old(need), old(stack)@),
        ),
{
    if reader.error() != Error::NoError || out.truncated != 0 {
        return false;
    }
    if stack.len() >= DEPTH_LIMIT {
        reader.flag_error(Error::TooBig);
        return false;
    }
    let tag = match reader.read_tag() {
        Some(t) => t,
        None => {
            return false;
        },
    };
    let (type_, aux, value, payload_len) = encode_tag(tag);
    let mut payload_hash: u32 = 0;
    match payload_len {
        Some(length) => {
            match reader.read_bytes(length as usize) {
                Some(bytes) => {
                    payload_hash = fnv1a32(bytes);
                },
                None => {
                    return false;
                },
            }
        },
        None => {},
    }
    if !out.push(type_, aux, value, payload_hash) {
        return false;
    }
    if !track_element(stack, need, tag) {
        reader.flag_error(Error::TooBig);
        return false;
    }
    true
}

/// The digest of reading the first value of `data` (at most
/// `MAX_INPUT_LEN` bytes of it) header by header, hashing each payload.
pub fn reader_digest_rust(data: &[u8]) -> (d: Digest)
    ensures
        d.fields() == reader_digest(data@),
{
    let data = cap_input(data);
    let mut out = Digest::new();
    let mut reader = Reader::new(data);
    let mut stack: Vec<u32> = Vec::new();
    let mut need: i32 = 1;
    let ghost target = read_run(read_state(reader@, out, need, stack@));
    loop
        invariant_except_break
            stack@.len() > 0 ==> stack@.last() >= 1,
            read_run(read_state(reader@, out, need, stack@)) == target,
        invariant
            reader@.wf(),
            reader@.data.len() <= MAX_INPUT_LEN,
            out.wf(),
            0 <= need <= 1,
        ensures
            reader@.wf(),
            reader@.data.len() <= MAX_INPUT_LEN,
            out.wf(),
            read_state(reader@, out, need, stack@) == target,
        decreases reader@.remaining(),
    {
        if !(need > 0 || stack.len() > 0) {
            break;
        }
        if !read_element(&mut reader, &mut out, &mut stack, &mut need) {
            break;
        }
    }
    out.finish(reader.error(), reader.used());
    out
}

/// The hash of a payload, or 0 when there is none.
pub open spec fn opt_fnv(p: Option<Seq<u8>>) -> u32 {
    match p {
        Some(b) => fnv(b),
        None => 0u32,
    }
}

/// What the record of node `i`, whose tag is `tag`, holds besides the type
/// code: the detail byte, the value and the payload hash; with the tree
/// after its payload was looked up.
pub open spec fn node_fields(t: TreeView, i: usize, tag: Tag) -> (TreeView, u8, u64, u32) {
    match tag {
        Tag::Str(length) => {
            let (t2, p) = t.payload_step(i, |x: Tag| tag_str(x));
            (t2, 0u8, length as u64, opt_fnv(p))
        },
        Tag::Bin(length) => {
            let (t2, p) = t.payload_step(i, |x: Tag| tag_bin(x));
            (t2, 0u8, length as u64, opt_fnv(p))
        },
        Tag::Ext { extension_type, length } => {
            let (t2, p) = t.payload_step(i, |x: Tag| ext_len(x));
            (t2, extension_type as u8, length as u64, opt_fnv(p))
        },
        _ => (t, tag_record(tag).1, tag_record(tag).2, 0u32),
    }
}

/// Recording node `i`, nested `depth` deep, and then its children in
/// order: the tree, the records, and whether the walk goes on. It stops
/// when the records are full, at `DEPTH_LIMIT`, and at a tree error.
pub open spec fn walk(t: TreeView, recs: Records, i: usize, depth: nat) -> (TreeView, Records, bool)
    decreases DEPTH_LIMIT - depth, 1int, 0int,
{
    if recs.truncated {
        (t, recs, false)
    } else if depth >= DEPTH_LIMIT {
        (t.flag(Error::TooBig), recs, false)
    } else if t.error != Error::NoError {
        (t, recs, false)
    } else {
        let (t1, tag) = t.tag_at(i);
        let (t2, aux, value, hash) = node_fields(t1, i, tag);
        let recs2 = recs.add(type_code(tag_kind(tag)), aux, value, hash);
        if t2.error != Error::NoError {
            (t2, recs, false)
        } else if recs.count >= MAX_RECORDS {
            (t2, recs2, false)
        } else {
            match tag {
                Tag::Array(c) => walk_items(t2, recs2, i, false, 0, c as int, depth),
                Tag::Mapping(c) => walk_items(t2, recs2, i, true, 0, 2 * c, depth),
                _ => (t2, recs2, true),
            }
        }
    }
}

/// Child `j` of node `i` (of an array, or of a map when `is_map`).
pub open spec fn child_of(t: TreeView, i: usize, is_map: bool, j: int) -> (TreeView, Option<usize>) {
    if is_map {
        t.child_step(i, |x: Tag| tag_map(x), j)
    } else {
        t.child_step(i, |x: Tag| tag_array(x), j)
    }
}

/// Walking children `j` up to `n` of node `i`, each one level deeper.
pub open spec fn walk_items(t: TreeView, recs: Records, i: usize, is_map: bool, j: int, n: int, depth: nat) -> (
    TreeView,
    Records,
    bool,
)
    decreases DEPTH_LIMIT - depth, 0int, n - j,
{
    if j >= n || depth >= DEPTH_LIMIT {
        (t, recs, t.error == Error::NoError)
    } else {
        let (t1, c) = child_of(t, i, is_map, j);
        match c {
            None => (t1, recs, false),
            Some(ci) => {
                let (t2, r2, ok) = walk(t1, recs, ci, depth + 1);
                if !ok {
                    (t2, r2, false)
                } else {
                    walk_items(t2, r2, i, is_map, j + 1, n, depth)
                }
            },
        }
    }
}

/// The digest of parsing the first value of `d` into a tree and walking it
/// in pre-order.
pub open spec fn node_digest(d: Seq<u8>) -> (i32, u32, u32, u32, Seq<u8>) {
    let t0 = tree_of(capped(d), None);
    if t0.error == Error::NoError && t0.root is Some {
        let (t, recs, _) = walk(t0, no_records(), t0.root->0, 0);
        digest_of(t.error, t0.size, recs)
    } else {
        digest_of(t0.error, t0.size, no_records())
    }
}

/// Walks child `j` of `node` (of a map when `is_map`), one level deeper.
/// One step of `walk_items`.
proof fn lemma_items_step(t: TreeView, recs: Records, i: usize, is_map: bool, j: int, n: int, depth: nat)
    ensures
        walk_items(t, recs, i, is_map, j, n, depth) == if j >= n || depth >= DEPTH_LIMIT {
            (t, recs, t.error == Error::NoError)
        } else {
            let (t1, c) = child_of(t, i, is_map, j);
            match c {
                None => (t1, recs, false),
                Some(ci) => {
                    let (t2, r2, ok) = walk(t1, recs, ci, depth + 1);
                    if !ok {
                        (t2, r2, false)
                    } else {
                        walk_items(t2, r2, i, is_map, j + 1, n, depth)
                    }
                },
            }
        },
{
}

/// One step of `walk`.
proof fn lemma_walk_step(t: TreeView, recs: Records, i: usize, depth: nat)
    ensures
        walk(t, recs, i, depth) == if recs.truncated {
            (t, recs, false)
        } else if depth >= DEPTH_LIMIT {
            (t.flag(Error::TooBig), recs, false)
        } else if t.error != Error::NoError {
            (t, recs, false)
        } else {
            let (t1, tag) = t.tag_at(i);
            let (t2, aux, value, hash) = node_fields(t1, i, tag);
            let recs2 = recs.add(type_code(tag_kind(tag)), aux, value, hash);
            if t2.error != Error::NoError {
                (t2, recs, false)
            } else if recs.count >= MAX_RECORDS {
                (t2, recs2, false)
            } else {
                match tag {
                    Tag::Array(c) => walk_items(t2, recs2, i, false, 0, c as int, depth),
                    Tag::Mapping(c) => walk_items(t2, recs2, i, true, 0, 2 * c, depth),
                    _ => (t2, recs2, true),
                }
            }
        },
{
}

fn walk_child(tree: &mut Tree<'_>, node: Node, out: &mut Digest, is_map: bool, j: u64, depth: usize) -> (ok:
    bool)
    requires
        old(out).wf(),
        depth < DEPTH_LIMIT,
        j <= 2 * (u32::MAX as int),
        !is_map ==> j <= u32::MAX,
    ensures
        final(out).wf(),
        final(out).error == old(out).error,
        final(out).bytes_used == old(out).bytes_used,
        ({
            let (t1, c) = child_of(old(tree)@, node@, is_map, j as int);
            match c {
                None => final(tree)@ == t1 && final(out).recs() == old(out).recs() && !ok,
                Some(ci) => (final(tree)@, final(out).recs(), ok) == walk(t1, old(out).recs(), ci, (depth + 1) as nat),
            }
        }),
    decreases DEPTH_LIMIT - depth, 0int,
{
    let child = if is_map {
        if j % 2 == 0 {
            node.map_key_at(tree, (j / 2) as usize)
        } else {
            node.map_value_at(tree, (j / 2) as usize)
        }
    } else {
        node.array_at(tree, j as usize)
    };
    proof {
        if is_map {
            assert(j % 2 == 0 ==> 2 * (j / 2) == j);
            assert(j % 2 == 1 ==> 2 * (j / 2) + 1 == j);
        }
    }
    match child {
        Some(c) => walk_node(tree, c, out, depth + 1),
        None => false,
    }
}

/// Records `node`, nested `depth` deep, and then its children in order.
fn walk_node(tree: &mut Tree<'_>, node: Node, out: &mut Digest, depth: usize) -> (ok: bool)
    requires
        old(out).wf(),
        depth <= DEPTH_LIMIT,
    ensures
        final(out).wf(),
        final(out).error == old(out).error,
        final(out).bytes_used == old(out).bytes_used,
        (final(tree)@, final(out).recs(), ok) == walk(old(tree)@, old(out).recs(), node@, depth as nat),
    decreases DEPTH_LIMIT - depth, 1int,
{
    proof {
        lemma_walk_step(tree@, out.recs(), node@, depth as nat);
    }
    if out.truncated != 0 {
        return false;
    }
    if depth >= DEPTH_LIMIT {
        tree.flag_error(Error::TooBig);
        return false;
    }
    if tree.error() != Error::NoError {
        return false;
    }
    let ghost t0 = tree@;
    let tag = node.tag(tree);
    let type_ = type_to_c(tag.kind());
    let (aux, value, payload_hash) = match tag {
        Tag::Str(length) => {
            let hash = match node.str_bytes(tree) {
                Some(bytes) => fnv1a32(bytes),
                None => 0,
            };
            (0u8, length as u64, hash)
        },
        Tag::Bin(length) => {
            let hash = match node.bin_bytes(tree) {
                Some(bytes) => fnv1a32(bytes),
                None => 0,
            };
            (0u8, length as u64, hash)
        },
        Tag::Ext { extension_type, length } => {
            let hash = match node.ext(tree) {
                Some((_, bytes)) => fnv1a32(bytes),
                None => 0,
            };
            (#[verifier::truncate] (extension_type as u8), length as u64, hash)
        },
        _ => {
            let (_, a, v, _) = encode_tag(tag);
            (a, v, 0u32)
        },
    };
    if tree.error() != Error::NoError {
        return false;
    }
    if !out.push(type_, aux, value, payload_hash) {
        return false;
    }
    let ghost t2 = tree@;
    let ghost recs2 = out.recs();
    let (is_map, n): (bool, u64) = match tag {
        Tag::Array(count) => (false, count as u64),
        Tag::Mapping(count) => (true, 2 * (count as u64)),
        _ => (false, 0),
    };
    proof {
        lemma_items_step(t2, recs2, node@, is_map, 0, n as int, depth as nat);
    }
    let mut j: u64 = 0;
    while j < n
        invariant
            j <= n,
            !is_map ==> n <= u32::MAX,
            n <= 2 * (u32::MAX as int),
            depth < DEPTH_LIMIT,
            out.wf(),
            out.error == old(out).error,
            out.bytes_used == old(out).bytes_used,
            walk(old(tree)@, old(out).recs(), node@, depth as nat) == walk_items(
                t2,
                recs2,
                node@,
                is_map,
                0,
                n as int,
                depth as nat,
            ),
            walk_items(tree@, out.recs(), node@, is_map, j as int, n as int, depth as nat) == walk_items(
                t2,
                recs2,
                node@,
                is_map,
                0,
                n as int,
                depth as nat,
            ),
        decreases n - j,
    {
        proof {
            lemma_items_step(tree@, out.recs(), node@, is_map, j as int, n as int, depth as nat);
        }
        if !walk_child(tree, node, out, is_map, j, depth) {
            return false;
        }
        j = j + 1;
    }
    proof {
        lemma_items_step(tree@, out.recs(), node@, is_map, j as int, n as int, depth as nat);
    }
    tree.error() == Error::NoError
}

/// The digest of parsing the first value of `data` (at most
/// `MAX_INPUT_LEN` bytes of it) into a tree and walking the tree in
/// pre-order, hashing each payload.
pub fn node_digest_rust(data: &[u8]) -> (d: Digest)
    ensures
        d.fields() == node_digest(data@),
{
    let data = cap_input(data);
    let mut out = Digest::new();
    let mut tree = Tree::parse(data);
    let size = tree.size();
    proof {
        law_parsed_tree_shape(data@, None);
    }
    if tree.error() == Error::NoError {
        match tree.root() {
            Some(root) => {
                let _ = walk_node(&mut tree, root, &mut out, 0);
            },
            None => {},
        }
    }
    out.finish(tree.error(), size);
    out
}

/// Longest output a transfer keeps; later bytes are dropped.
pub const MAX_OUTPUT_LEN: usize = 1048576;

/// The result of reading a message and writing it again: the reader's and
/// the writer's error codes, whether the output was cut to
/// `MAX_OUTPUT_LEN`, and the output (empty when the writer failed).
#[derive(Clone, Debug, PartialEq, Eq)]
pub struct WriterTransfer {
    pub reader_error: i32,
    pub writer_error: i32,
    pub truncated: u32,
    pub out: Vec<u8>,
}

/// The header the writer writes for a tag: the smallest encoding of its
/// value, or of its length or count; none for a length beyond `u32::MAX`.
pub open spec fn tag_header(tag: Tag) -> Option<Seq<u8>> {
    match tag {
        Tag::Nil => Some(seq![0xc0u8]),
        Tag::Bool(v) => Some(seq![if v { 0xc3u8 } else { 0xc2u8 }]),
        Tag::Int(v) => Some(int_header(v)),
        Tag::Uint(v) => Some(uint_header(v)),
        Tag::Float(bits) => Some(f32_header(bits)),
        Tag::Double(bits) => Some(f64_header(bits)),
        Tag::Str(n) => str_header(n as usize),
        Tag::Bin(n) => bin_header(n as usize),
        Tag::Array(n) => array_header(n as usize),
        Tag::Mapping(n) => map_header(n as usize),
        Tag::Ext { extension_type, length } => ext_header(extension_type, length as usize),
    }
}

/// Writes the header of `tag`.
fn write_tag(writer: &mut GrowableWriter, tag: Tag)
    ensures
        final(writer)@ == old(writer)@.append_opt(tag_header(tag)),
{
    match tag {
        Tag::Nil => writer.write_nil(),
        Tag::Bool(value) => writer.write_bool(value),
        Tag::Int(value) => writer.write_i64(value),
        Tag::Uint(value) => writer.write_u64(value),
        Tag::Float(bits) => writer.write_f32_bits(bits),
        Tag::Double(bits) => writer.write_f64_bits(bits),
        Tag::Str(length) => writer.write_str_header(length as usize),
        Tag::Bin(length) => writer.write_bin_header(length as usize),
        Tag::Array(count) => writer.write_array_header(count as usize),
        Tag::Mapping(count) => writer.write_map_header(count as usize),
        Tag::Ext { extension_type, length } => writer.write_ext_header(extension_type, length as usize),
    }
}

/// Copying `left` payload bytes from the reader to the writer in chunks of
/// at most 256 bytes, until one side has an error or a chunk cannot be
/// read (which the reader records).
pub open spec fn copy_payload(r: ReaderView, g: GrowView, left: nat) -> (ReaderView, GrowView)
    decreases left,
{
    if left == 0 || r.error != Error::NoError || g.error != Error::NoError {
        (r, g)
    } else {
        let step: nat = if left < 256 {
            left
        } else {
            256
        };
        if !r.can_read(step as int) {
            (r.skip(step as int), g)
        } else {
            copy_payload(r.advance(step as int), g.append(r.payload(step as int)), (left - step) as nat)
        }
    }
}

/// Copies `count` payload bytes from the reader to the writer.
fn transfer_bytes(reader: &mut Reader<'_>, writer: &mut GrowableWriter, count: u32)
    requires
        old(reader)@.wf(),
    ensures
        final(reader)@.wf(),
        final(reader)@.data == old(reader)@.data,
        final(reader)@.pos >= old(reader)@.pos,
        (final(reader)@, final(writer)@) == copy_payload(old(reader)@, old(writer)@, count as nat),
{
    let mut left: usize = count as usize;
    while left > 0
        invariant
            reader@.wf(),
            reader@.data == old(reader)@.data,
            reader@.pos >= old(reader)@.pos,
            copy_payload(reader@, writer@, left as nat) == copy_payload(old(reader)@, old(writer)@, count as nat),
        decreases left,
    {
        if reader.error() != Error::NoError || writer.error() != Error::NoError {
            return ;
        }
        let step = if left < 256 {
            left
        } else {
            256
        };
        let bytes = match reader.read_bytes(step) {
            Some(b) => b,
            None => {
                return ;
            },
        };
        writer.write_bytes(bytes);
        left = left - step;
    }
}

/// A transfer under way: the reader, the writer, whether the top-level
/// value is still to be read, and the open compounds' element counts.
pub struct TransferState {
    pub r: ReaderView,
    pub g: GrowView,
    pub need: bool,
    pub stack: Seq<u32>,
}

/// One element read and written again: its header is rewritten in the
/// smallest form, its payload copied, and it is counted as in `read_step`.
/// The flag tells whether the transfer goes on: it stops at an error of
/// either side, at nesting deeper than `DEPTH_LIMIT`, and at a map too
/// large to count.
pub open spec fn transfer_step(s: TransferState) -> (TransferState, bool) {
    if s.r.error != Error::NoError || s.g.error != Error::NoError {
        (s, false)
    } else if s.stack.len() >= DEPTH_LIMIT {
        (TransferState { r: s.r.flag(Error::TooBig), g: s.g, need: s.need, stack: s.stack }, false)
    } else {
        let (r1, t) = s.r.tag_step(true);
        match t {
            None => (TransferState { r: r1, g: s.g, need: s.need, stack: s.stack }, false),
            Some(tag) => {
                let g1 = s.g.append_opt(tag_header(tag));
                if g1.error != Error::NoError {
                    (TransferState { r: r1, g: g1, need: s.need, stack: s.stack }, false)
                } else {
                    let (r2, g2) = match tag_record(tag).3 {
                        Some(l) => copy_payload(r1, g1, l as nat),
                        None => (r1, g1),
                    };
                    let st1 = count_element(s.stack, s.need);
                    match open_element(st1, tag) {
                        Some(st) => (TransferState { r: r2, g: g2, need: false, stack: st }, true),
                        None => (
                            TransferState { r: r2.flag(Error::TooBig), g: g2, need: false, stack: st1 },
                            false,
                        ),
                    }
                }
            },
        }
    }
}

/// Transferring elements while the top-level value is unread or a compound
/// is open, until a step stops.
pub open spec fn transfer_run(s: TransferState) -> TransferState
    decreases s.r.remaining(),
{
    if !(s.need || s.stack.len() > 0) {
        s
    } else {
        let (s2, go) = transfer_step(s);
        if go && 0 <= s2.r.remaining() < s.r.remaining() {
            transfer_run(s2)
        } else {
            s2
        }
    }
}

/// The transfer of the first value of `d` (at most `MAX_INPUT_LEN` bytes
/// of it): the reader's and the writer's error codes, whether the output
/// was cut, and the output, cut to `MAX_OUTPUT_LEN` bytes and empty when
/// the writer failed.
pub open spec fn writer_transfer(d: Seq<u8>) -> (i32, i32, u32, Seq<u8>) {
    let s = transfer_run(
        TransferState {
            r: ReaderView { data: capped(d), pos: 0, error: Error::NoError },
            g: GrowView::empty(),
            need: true,
            stack: Seq::empty(),
        },
    );
    let cut = s.g.bytes.len() > MAX_OUTPUT_LEN;
    let kept = if cut {
        s.g.bytes.subrange(0, MAX_OUTPUT_LEN as int)
    } else {
        s.g.bytes
    };
    (
        error_code(s.r.error),
        error_code(s.g.error),
        if cut {
            1u32
        } else {
            0u32
        },
        if error_code(s.g.error) != 0 {
            Seq::empty()
        } else {
            kept
        },
    )
}

/// The state of a transfer, from the reader, the writer, the count of
/// top-level values still to read and the open compounds.
spec fn transfer_state(r: ReaderView, g: GrowView, need: i32, stack: Seq<u32>) -> TransferState {
    TransferState { r, g, need: need > 0, stack }
}

/// Reads one element and writes it again; false when the transfer stops.
fn transfer_element(
    reader: &mut Reader<'_>,
    writer: &mut GrowableWriter,
    stack: &mut Vec<u32>,
    need: &mut i32,
) -> (go: bool)
    requires
        old(reader)@.wf(),
        0 <= *old(need) <= 1,
        *old(need) > 0 || old(stack)@.len() > 0,
        old(stack)@.len() > 0 ==> old(stack)@.last() >= 1,
    ensures
        final(reader)@.wf(),
        final(reader)@.data == old(reader)@.data,
        0 <= *final(need) <= 1,
        go ==> final(stack)@.len() > 0 ==> final(stack)@.last() >= 1,
        go ==> final(reader)@.remaining() < old(reader)@.remaining(),
        (transfer_state(final(reader)@, final(writer)@, *final(need), final(stack)@), go) == transfer_step(
            transfer_state(old(reader)@, old(writer)@, *old(need), old(stack)@),
        ),
{
    if reader.error() != Error::NoError || writer.error() != Error::NoError {
        return false;
    }
    if stack.len() >= DEPTH_LIMIT {
        reader.flag_error(Error::TooBig);
        return false;
    }
    let tag = match reader.read_tag() {
        Some(t) => t,
        None => {
            return false;
        },
    };
    write_tag(writer, tag);
    if writer.error() != Error::NoError {
        return false;
    }
    match tag {
        Tag::Str(length) => transfer_bytes(reader, writer, length),
        Tag::Bin(length) => transfer_bytes(reader, writer, length),
        Tag::Ext { extension_type: _, length } => transfer_bytes(reader, writer, length),
        _ => {},
    }
    if !track_element(stack, need, tag) {
        reader.flag_error(Error::TooBig);
        return false;
    }
    true
}

/// Reads the first value of `data` (at most `MAX_INPUT_LEN` bytes of it)
/// element by element and writes each element again with a growable
/// writer, copying payloads in chunks.
pub fn writer_transfer_rust(data: &[u8]) -> (t: WriterTransfer)
    ensures
        (t.reader_error, t.writer_error, t.truncated, t.out@) == writer_transfer(data@),
{
    let data = cap_input(data);
    let mut reader = Reader::new(data);
    let mut writer = GrowableWriter::new();
    let mut stack: Vec<u32> = Vec::new();
    let mut need: i32 = 1;
    let ghost target = transfer_run(transfer_state(reader@, writer@, need, stack@));
    loop
        invariant_except_break
            stack@.len() > 0 ==> stack@.last() >= 1,
            transfer_run(transfer_state(reader@, writer@, need, stack@)) == target,
        invariant
            reader@.wf(),
            0 <= need <= 1,
        ensures
            transfer_state(reader@, writer@, need, stack@) == target,
        decreases reader@.remaining(),
    {
        if !(need > 0 || stack.len() > 0) {
            break;
        }
        if !transfer_element(&mut reader, &mut writer, &mut stack, &mut need) {
            break;
        }
    }
    let reader_error = error_to_c(reader.error());
    let writer_error = error_to_c(writer.error());
    let bytes = writer.as_slice();
    let mut truncated: u32 = 0;
    let kept = if bytes.len() > MAX_OUTPUT_LEN {
        truncated = 1;
        slice_subrange(bytes, 0, MAX_OUTPUT_LEN)
    } else {
        bytes
    };
    let mut out: Vec<u8> = Vec::new();
    if writer_error == 0 {
        append_slice(&mut out, kept);
    }
    proof {
        assert(Seq::<u8>::empty() + kept@ =~= kept@);
    }
    WriterTransfer { reader_error, writer_error, truncated, out }
}

/// The byte at `pos` of an opcode stream, or 0 past its end.
pub open spec fn op_byte(ops: Seq<u8>, pos: int) -> u8 {
    if 0 <= pos < ops.len() {
        ops[pos]
    } else {
        0u8
    }
}

/// The position after the byte at `pos` of an opcode stream; the end stays.
pub open spec fn op_after(ops: Seq<u8>, pos: int) -> int {
    if 0 <= pos < ops.len() {
        pos + 1
    } else {
        pos
    }
}

/// The `n` bytes at `pos` of an opcode stream read as a little-endian
/// number, bytes past the end reading as 0; and the position after them.
pub open spec fn take_le(ops: Seq<u8>, pos: int, n: nat) -> (nat, int)
    decreases n,
{
    if n == 0 {
        (0, pos)
    } else {
        let rest = take_le(ops, op_after(ops, pos), (n - 1) as nat);
        ((op_byte(ops, pos) + 256 * rest.0) as nat, rest.1)
    }
}

/// The `n` bytes at `pos` of an opcode stream, bytes past the end reading
/// as 0; and the position after them.
pub open spec fn take_seq(ops: Seq<u8>, pos: int, n: nat) -> (Seq<u8>, int)
    decreases n,
{
    if n == 0 {
        (Seq::empty(), pos)
    } else {
        let rest = take_seq(ops, op_after(ops, pos), (n - 1) as nat);
        (seq![op_byte(ops, pos)] + rest.0, rest.1)
    }
}

proof fn lemma_take_bound(ops: Seq<u8>, pos: int, n: nat)
    ensures
        take_le(ops, pos, n).0 < pow256(n),
        pos <= ops.len() ==> pos <= take_le(ops, pos, n).1 <= ops.len(),
    decreases n,
{
    if n > 0 {
        lemma_take_bound(ops, op_after(ops, pos), (n - 1) as nat);
    }
}

/// Takes the byte at `pos` of an opcode stream (0 past its end).
pub fn take_byte(ops: &[u8], pos: usize) -> (r: (u8, usize))
    requires
        pos <= ops@.len(),
    ensures
        r.0 == op_byte(ops@, pos as int),
        r.1 == op_after(ops@, pos as int),
        pos <= r.1 <= ops@.len(),
{
    if pos < ops.len() {
        (ops[pos], pos + 1)
    } else {
        (0, pos)
    }
}

/// Takes `n` bytes at `pos` of an opcode stream as a little-endian number.
pub fn take_bytes(ops: &[u8], pos: usize, n: usize) -> (r: (u64, usize))
    requires
        pos <= ops@.len(),
        n <= 8,
    ensures
        r.0 == take_le(ops@, pos as int, n as nat).0,
        r.1 == take_le(ops@, pos as int, n as nat).1,
        pos <= r.1 <= ops@.len(),
    decreases n,
{
    if n == 0 {
        return (0, pos);
    }
    let (b, next) = take_byte(ops, pos);
    let (rest, p) = take_bytes(ops, next, n - 1);
    proof {
        lemma_take_bound(ops@, next as int, (n - 1) as nat);
        lemma_pow256_values();
        assert(pow256((n - 1) as nat) <= pow256(7)) by {
            crate::endian::lemma_pow256_monotone((n - 1) as nat, 7);
        }
    }
    (b as u64 + 256 * rest, p)
}

/// The value that `expect_digest` records for a compound that may be nil:
/// the count, with bit 32 set for nil.
pub open spec fn or_nil_value(c: ExpectCompound) -> u64 {
    (c.count as u64) | (if c.is_nil {
        1u64 << 32u64
    } else {
        0u64
    })
}

/// The record value of a compound that may be nil.
pub fn encode_or_nil(compound: ExpectCompound) -> (v: u64)
    ensures
        v == or_nil_value(compound),
{
    let mut value = compound.count as u64;
    if compound.is_nil {
        value = value | (1u64 << 32u64);
    } else {
        value = value | 0u64;
    }
    value
}

/// The value of an optional unsigned result, 0 when there is none.
pub open spec fn or_zero(v: Option<u64>) -> u64 {
    match v {
        Some(x) => x,
        None => 0,
    }
}

/// The value of an optional signed result as its bits, 0 when there is none.
pub open spec fn or_zero_signed(v: Option<i64>) -> u64 {
    match v {
        Some(x) => x as u64,
        None => 0,
    }
}

/// What a scalar opcode does: nil and booleans (0 to 3), integers of each
/// width (4 to 11), integers in a range read from the opcode stream (12 to
/// 19), integers matched against one read from it (20, 21), float bits
/// (24, 25) and timestamps (50, 51). The reader after it, the position in
/// the opcode stream, the value recorded and the payload hash.
pub open spec fn scalar_op(r: ReaderView, ops: Seq<u8>, pos: int, op: u8) -> (ReaderView, int, u64, u32) {
    if op == 0 {
        (byte_step(r, |b: u8| nil_byte(b)).0, pos, 0, 0)
    } else if op == 1 {
        let (r2, v) = byte_step(r, |b: u8| bool_byte(b));
        (r2, pos, if v == Some(true) {
            1u64
        } else {
            0u64
        }, 0)
    } else if op == 2 {
        (match_step(byte_step(r, |b: u8| bool_byte(b)), true).0, pos, 0, 0)
    } else if op == 3 {
        (match_step(byte_step(r, |b: u8| bool_byte(b)), false).0, pos, 0, 0)
    } else if 4 <= op <= 7 {
        let max: u64 = if op == 4 {
            0xff
        } else if op == 5 {
            0xffff
        } else if op == 6 {
            0xffff_ffff
        } else {
            u64::MAX
        };
        let (r2, v) = uint_step(r, max);
        (r2, pos, or_zero(v), 0)
    } else if 8 <= op <= 11 {
        let (min, max): (int, int) = if op == 8 {
            (-0x80, 0x7f)
        } else if op == 9 {
            (-0x8000, 0x7fff)
        } else if op == 10 {
            (-0x8000_0000, 0x7fff_ffff)
        } else {
            (i64::MIN as int, i64::MAX as int)
        };
        let (r2, v) = int_step(r, min, max);
        (r2, pos, or_zero_signed(v), 0)
    } else if op == 12 {
        let (lo0, p1) = take_le(ops, pos, 1);
        let (hi0, p2) = take_le(ops, p1, 1);
        let (lo, hi) = (lo0 as u8, hi0 as u8);
        let (r2, v) = then_check(uint_step(r, 0xff), |v: u64| lo <= v <= hi);
        (r2, p2, match v {
            Some(x) => x,
            None => lo as u64,
        }, 0)
    } else if op == 13 {
        let (lo0, p1) = take_le(ops, pos, 2);
        let (hi0, p2) = take_le(ops, p1, 2);
        let (lo, hi) = (lo0 as u16, hi0 as u16);
        let (r2, v) = then_check(uint_step(r, 0xffff), |v: u64| lo <= v <= hi);
        (r2, p2, match v {
            Some(x) => x,
            None => lo as u64,
        }, 0)
    } else if op == 14 {
        let (lo0, p1) = take_le(ops, pos, 4);
        let (hi0, p2) = take_le(ops, p1, 4);
        let (lo, hi) = (lo0 as u32, hi0 as u32);
        let (r2, v) = then_check(uint_step(r, 0xffff_ffff), |v: u64| lo <= v <= hi);
        (r2, p2, match v {
            Some(x) => x,
            None => lo as u64,
        }, 0)
    } else if op == 15 {
        let (lo0, p1) = take_le(ops, pos, 8);
        let (hi0, p2) = take_le(ops, p1, 8);
        let (lo, hi) = (lo0 as u64, hi0 as u64);
        let (r2, v) = then_check(uint_step(r, u64::MAX), |v: u64| lo <= v <= hi);
        (r2, p2, match v {
            Some(x) => x,
            None => lo,
        }, 0)
    } else if op == 16 {
        let (lo0, p1) = take_le(ops, pos, 1);
        let (hi0, p2) = take_le(ops, p1, 1);
        let (lo, hi) = (lo0 as u8 as i8, hi0 as u8 as i8);
        let (r2, v) = then_check(int_step(r, -0x80, 0x7f), |v: i64| lo <= v <= hi);
        (r2, p2, match v {
            Some(x) => x as u64,
            None => lo as u64,
        }, 0)
    } else if op == 17 {
        let (lo0, p1) = take_le(ops, pos, 2);
        let (hi0, p2) = take_le(ops, p1, 2);
        let (lo, hi) = (lo0 as u16 as i16, hi0 as u16 as i16);
        let (r2, v) = then_check(int_step(r, -0x8000, 0x7fff), |v: i64| lo <= v <= hi);
        (r2, p2, match v {
            Some(x) => x as u64,
            None => lo as u64,
        }, 0)
    } else if op == 18 {
        let (lo0, p1) = take_le(ops, pos, 4);
        let (hi0, p2) = take_le(ops, p1, 4);
        let (lo, hi) = (lo0 as u32 as i32, hi0 as u32 as i32);
        let (r2, v) = then_check(int_step(r, -0x8000_0000, 0x7fff_ffff), |v: i64| lo <= v <= hi);
        (r2, p2, match v {
            Some(x) => x as u64,
            None => lo as u64,
        }, 0)
    } else if op == 19 {
        let (lo0, p1) = take_le(ops, pos, 8);
        let (hi0, p2) = take_le(ops, p1, 8);
        let (lo, hi) = (lo0 as u64 as i64, hi0 as u64 as i64);
        let (r2, v) = then_check(int_step(r, i64::MIN as int, i64::MAX as int), |v: i64| lo <= v <= hi);
        (r2, p2, match v {
            Some(x) => x as u64,
            None => lo as u64,
        }, 0)
    } else if op == 20 {
        let (want, p1) = take_le(ops, pos, 8);
        (match_step(uint_step(r, u64::MAX), want as u64).0, p1, want as u64, 0)
    } else if op == 21 {
        let (want, p1) = take_le(ops, pos, 8);
        (
            match_step(int_step(r, i64::MIN as int, i64::MAX as int), want as u64 as i64).0,
            p1,
            want as u64,
            0,
        )
    } else if op == 24 {
        let (r2, v) = r.typed_step(|t: Tag| tag_float_bits(t));
        (r2, pos, match v {
            Some(b) => b as u64,
            None => 0,
        }, 0)
    } else if op == 25 {
        let (r2, v) = r.typed_step(|t: Tag| tag_double_bits(t));
        (r2, pos, or_zero(v), 0)
    } else if op == 50 {
        let (r2, v) = timestamp_step(r);
        (r2, pos, match v {
            Some(t) => ((t.nanoseconds as u64) << 32u64) ^ (t.seconds as u64),
            None => 0,
        }, 0)
    } else {
        let (r2, v) = timestamp_step(r);
        (r2, pos, match v {
            Some(t) => t.seconds as u64,
            None => 0,
        }, 0)
    }
}

/// Performs a scalar opcode (see `scalar_op`).
fn scalar_exec(reader: &mut Reader<'_>, ops: &[u8], pos: usize, op: u8) -> (r: (usize, u64, u32))
    requires
        old(reader)@.wf(),
        pos <= ops@.len(),
        op <= 21 || op == 24 || op == 25 || op == 50 || op == 51,
    ensures
        final(reader)@.wf(),
        pos <= r.0 <= ops@.len(),
        (final(reader)@, r.0 as int, r.1, r.2) == scalar_op(old(reader)@, ops@, pos as int, op),
{
    if op == 0 {
        let _ = expect::nil(reader);
        (pos, 0, 0)
    } else if op == 1 {
        let v = expect::bool_(reader);
        (pos, match v {
            Some(true) => 1,
            _ => 0,
        }, 0)
    } else if op == 2 {
        let _ = expect::true_(reader);
        (pos, 0, 0)
    } else if op == 3 {
        let _ = expect::false_(reader);
        (pos, 0, 0)
    } else if op == 4 {
        (pos, match expect::u8(reader) {
            Some(x) => x as u64,
            None => 0,
        }, 0)
    } else if op == 5 {
        (pos, match expect::u16(reader) {
            Some(x) => x as u64,
            None => 0,
        }, 0)
    } else if op == 6 {
        (pos, match expect::u32(reader) {
            Some(x) => x as u64,
            None => 0,
        }, 0)
    } else if op == 7 {
        (pos, match expect::u64(reader) {
            Some(x) => x,
            None => 0,
        }, 0)
    } else if op == 8 {
        (pos, match expect::i8(reader) {
            Some(x) => x as u64,
            None => 0,
        }, 0)
    } else if op == 9 {
        (pos, match expect::i16(reader) {
            Some(x) => x as u64,
            None => 0,
        }, 0)
    } else if op == 10 {
        (pos, match expect::i32(reader) {
            Some(x) => x as u64,
            None => 0,
        }, 0)
    } else if op == 11 {
        (pos, match expect::i64(reader) {
            Some(x) => x as u64,
            None => 0,
        }, 0)
    } else if op == 12 {
        let (lo, p1) = take_bytes(ops, pos, 1);
        let (hi, p2) = take_bytes(ops, p1, 1);
        let (lo, hi) = (lo as u8, hi as u8);
        (p2, match expect::u8_range(reader, lo, hi) {
            Some(x) => x as u64,
            None => lo as u64,
        }, 0)
    } else if op == 13 {
        let (lo, p1) = take_bytes(ops, pos, 2);
        let (hi, p2) = take_bytes(ops, p1, 2);
        let (lo, hi) = (lo as u16, hi as u16);
        (p2, match expect::u16_range(reader, lo, hi) {
            Some(x) => x as u64,
            None => lo as u64,
        }, 0)
    } else if op == 14 {
        let (lo, p1) = take_bytes(ops, pos, 4);
        let (hi, p2) = take_bytes(ops, p1, 4);
        let (lo, hi) = (lo as u32, hi as u32);
        (p2, match expect::u32_range(reader, lo, hi) {
            Some(x) => x as u64,
            None => lo as u64,
        }, 0)
    } else if op == 15 {
        let (lo, p1) = take_bytes(ops, pos, 8);
        let (hi, p2) = take_bytes(ops, p1, 8);
        let (lo, hi) = (lo as u64, hi as u64);
        (p2, match expect::u64_range(reader, lo, hi) {
            Some(x) => x,
            None => lo,
        }, 0)
    } else if op == 16 {
        let (lo, p1) = take_bytes(ops, pos, 1);
        let (hi, p2) = take_bytes(ops, p1, 1);
        let (lo, hi) = (lo as u8 as i8, hi as u8 as i8);
        (p2, match expect::i8_range(reader, lo, hi) {
            Some(x) => x as u64,
            None => lo as u64,
        }, 0)
    } else if op == 17 {
        let (lo, p1) = take_bytes(ops, pos, 2);
        let (hi, p2) = take_bytes(ops, p1, 2);
        let (lo, hi) = (lo as u16 as i16, hi as u16 as i16);
        (p2, match expect::i16_range(reader, lo, hi) {
            Some(x) => x as u64,
            None => lo as u64,
        }, 0)
    } else if op == 18 {
        let (lo, p1) = take_bytes(ops, pos, 4);
        let (hi, p2) = take_bytes(ops, p1, 4);
        let (lo, hi) = (lo as u32 as i32, hi as u32 as i32);
        (p2, match expect::i32_range(reader, lo, hi) {
            Some(x) => x as u64,
            None => lo as u64,
        }, 0)
    } else if op == 19 {
        let (lo, p1) = take_bytes(ops, pos, 8);
        let (hi, p2) = take_bytes(ops, p1, 8);
        let (lo, hi) = (lo as i64, hi as i64);
        (p2, match expect::i64_range(reader, lo, hi) {
            Some(x) => x as u64,
            None => lo as u64,
        }, 0)
    } else if op == 20 {
        let (want, p1) = take_bytes(ops, pos, 8);
        let _ = expect::uint_match(reader, want);
        (p1, want, 0)
    } else if op == 21 {
        let (want, p1) = take_bytes(ops, pos, 8);
        let _ = expect::int_match(reader, want as i64);
        (p1, want, 0)
    } else if op == 24 {
        (pos, match expect::float_bits(reader) {
            Some(b) => b as u64,
            None => 0,
        }, 0)
    } else if op == 25 {
        (pos, match expect::double_bits(reader) {
            Some(b) => b,
            None => 0,
        }, 0)
    } else if op == 50 {
        (pos, match expect::timestamp(reader) {
            Some(t) => ((t.nanoseconds as u64) << 32u64) ^ (t.seconds as u64),
            None => 0,
        }, 0)
    } else {
        (pos, match expect::timestamp_truncate(reader) {
            Some(s) => s as u64,
            None => 0,
        }, 0)
    }
}

/// What a compound opcode does: for maps (28 to 32) and arrays (33 to 37),
/// expect one, one whose count lies in a range, one of a given count, one
/// or nil, and one of at most a given count or nil; bounds and counts are
/// read from the opcode stream.
pub open spec fn compound_op(r: ReaderView, ops: Seq<u8>, pos: int, op: u8) -> (ReaderView, int, u64, u32) {
    let is_map = op <= 32;
    let k = if is_map {
        op - 28
    } else {
        op - 33
    };
    if k == 0 {
        let (r2, v) = count_step(r, is_map);
        (r2, pos, match v {
            Some(c) => c as u64,
            None => 0,
        }, 0)
    } else if k == 1 {
        let (lo0, p1) = take_le(ops, pos, 4);
        let (hi0, p2) = take_le(ops, p1, 4);
        let (r2, v) = range_step(r, is_map, lo0 as u32, hi0 as u32);
        (r2, p2, match v {
            Some(c) => c as u64,
            None => lo0 as u32 as u64,
        }, 0)
    } else if k == 2 {
        let (c0, p1) = take_le(ops, pos, 4);
        (match_step(count_step(r, is_map), c0 as u32).0, p1, c0 as u32 as u64, 0)
    } else if k == 3 {
        let (r2, v) = or_nil_step(r, is_map, None);
        (r2, pos, match v {
            Some(c) => or_nil_value(c),
            None => 0,
        }, 0)
    } else {
        let (m0, p1) = take_le(ops, pos, 4);
        let (r2, v) = or_nil_step(r, is_map, Some(m0 as u32));
        (r2, p1, match v {
            Some(c) => or_nil_value(c),
            None => 0,
        }, 0)
    }
}

/// Performs a compound opcode (see `compound_op`).
fn compound_exec(reader: &mut Reader<'_>, ops: &[u8], pos: usize, op: u8) -> (r: (usize, u64, u32))
    requires
        old(reader)@.wf(),
        pos <= ops@.len(),
        28 <= op <= 37,
    ensures
        final(reader)@.wf(),
        pos <= r.0 <= ops@.len(),
        (final(reader)@, r.0 as int, r.1, r.2) == compound_op(old(reader)@, ops@, pos as int, op),
{
    let is_map = op <= 32;
    let k = if is_map {
        op - 28
    } else {
        op - 33
    };
    if k == 0 {
        let v = if is_map {
            expect::map(reader)
        } else {
            expect::array(reader)
        };
        (pos, match v {
            Some(c) => c as u64,
            None => 0,
        }, 0)
    } else if k == 1 {
        let (lo, p1) = take_bytes(ops, pos, 4);
        let (hi, p2) = take_bytes(ops, p1, 4);
        let (lo, hi) = (lo as u32, hi as u32);
        let v = if is_map {
            expect::map_range(reader, lo, hi)
        } else {
            expect::array_range(reader, lo, hi)
        };
        (p2, match v {
            Some(c) => c as u64,
            None => lo as u64,
        }, 0)
    } else if k == 2 {
        let (c, p1) = take_bytes(ops, pos, 4);
        let c = c as u32;
        let _ = if is_map {
            expect::map_match(reader, c)
        } else {
            expect::array_match(reader, c)
        };
        (p1, c as u64, 0)
    } else if k == 3 {
        let v = if is_map {
            expect::map_or_nil(reader)
        } else {
            expect::array_or_nil(reader)
        };
        (pos, match v {
            Some(c) => encode_or_nil(c),
            None => 0,
        }, 0)
    } else {
        let (m, p1) = take_bytes(ops, pos, 4);
        let m = m as u32;
        let v = if is_map {
            expect::map_max_or_nil(reader, m)
        } else {
            expect::array_max_or_nil(reader, m)
        };
        (p1, match v {
            Some(c) => encode_or_nil(c),
            None => 0,
        }, 0)
    }
}

/// Room of the buffer that the buffer opcodes read into.
pub const OP_BUF_LEN: usize = 256;

/// The record value of an extension type and length: the type's byte above
/// bit 32, the length below.
pub open spec fn ext_value(t: i8, n: u64) -> u64 {
    ((t as u8 as u64) << 32u64) | n
}

/// What an opcode on strings and binary data does: expect a string header
/// (38), a string into a buffer (39), a UTF-8 string into it (40), a string
/// equal to bytes read from the opcode stream (41), a string as a C string
/// into the buffer (42, 43 with UTF-8), a binary header (44), binary data
/// into the buffer (45), binary data of a size read from the opcode stream
/// (46), an extension header (47) and extension data into the buffer (48).
/// The hash is that of the bytes placed in the buffer or matched.
pub open spec fn bytes_op(r: ReaderView, ops: Seq<u8>, pos: int, op: u8) -> (ReaderView, int, u64, u32) {
    let cap = OP_BUF_LEN as nat;
    if op == 38 {
        let (r2, v) = str_step(r);
        (r2, pos, match v {
            Some(l) => l as u64,
            None => 0,
        }, 0)
    } else if op == 39 {
        let (r2, v) = buf_step(str_step(r), cap);
        (r2, pos, match v {
            Some(b) => b.len() as u64,
            None => 0,
        }, opt_fnv(v))
    } else if op == 40 {
        let (r2, v) = buf_step(str_step(r), cap);
        match v {
            Some(b) => if valid_utf8(b) {
                (r2, pos, b.len() as u64, fnv(b))
            } else {
                (r2.flag(Error::Type), pos, 0, 0)
            },
            None => (r2, pos, 0, 0),
        }
    } else if op == 41 {
        let (n0, p1) = take_le(ops, pos, 1);
        let n: nat = if n0 > 32 {
            32
        } else {
            n0
        };
        let (want, p2) = take_seq(ops, p1, n);
        (str_match_step(r, want).0, p2, n as u64, fnv(want))
    } else if op == 42 {
        let (r2, v) = cstr_step(r, cap, |b: Seq<u8>| !b.contains(0u8));
        (r2, pos, match v {
            Some(b) => b.len() as u64,
            None => 0,
        }, opt_fnv(v))
    } else if op == 43 {
        let (r2, v) = cstr_step(r, cap, |b: Seq<u8>| valid_utf8(b) && !b.contains(0u8));
        (r2, pos, match v {
            Some(b) => b.len() as u64,
            None => 0,
        }, opt_fnv(v))
    } else if op == 44 {
        let (r2, v) = r.typed_step(|t: Tag| tag_bin(t));
        (r2, pos, match v {
            Some(l) => l as u64,
            None => 0,
        }, 0)
    } else if op == 45 {
        let (r2, v) = buf_step(r.typed_step(|t: Tag| tag_bin(t)), cap);
        (r2, pos, match v {
            Some(b) => b.len() as u64,
            None => 0,
        }, opt_fnv(v))
    } else if op == 46 {
        let (s0, p1) = take_le(ops, pos, 4);
        let size: u32 = if s0 as u32 > 256 {
            256
        } else {
            s0 as u32
        };
        let (r2, v) = bin_size_step(r, cap, size);
        (r2, p1, size as u64, opt_fnv(v))
    } else if op == 47 {
        let (r2, v) = r.typed_step(|t: Tag| tag_ext(t));
        (r2, pos, match v {
            Some((t, n)) => ext_value(t, n as u64),
            None => 0,
        }, 0)
    } else {
        let (r2, v) = ext_buf_step(r, cap);
        (r2, pos, match v {
            Some((t, b)) => ext_value(t, b.len() as u64),
            None => 0,
        }, match v {
            Some((_, b)) => fnv(b),
            None => 0,
        })
    }
}

/// The index of the first zero byte of `buf`, or its length.
fn first_zero(buf: &[u8]) -> (n: usize)
    ensures
        n <= buf@.len(),
        forall|i: int| 0 <= i < n ==> buf@[i] != 0,
        n < buf@.len() ==> buf@[n as int] == 0,
{
    let mut i: usize = 0;
    while i < buf.len()
        invariant
            i <= buf@.len(),
            forall|k: int| 0 <= k < i ==> buf@[k] != 0,
        decreases buf.len() - i,
    {
        if buf[i] == 0 {
            return i;
        }
        i = i + 1;
    }
    i
}

/// Takes `n` bytes of the opcode stream into a vector.
fn take_vec(ops: &[u8], pos: usize, n: usize) -> (r: (Vec<u8>, usize))
    requires
        pos <= ops@.len(),
    ensures
        (r.0@, r.1 as int) == take_seq(ops@, pos as int, n as nat),
        pos <= r.1 <= ops@.len(),
{
    let mut v: Vec<u8> = Vec::new();
    let mut p = pos;
    let mut i: usize = 0;
    while i < n
        invariant
            i <= n,
            pos <= p <= ops@.len(),
            take_seq(ops@, pos as int, n as nat) == (
                v@ + take_seq(ops@, p as int, (n - i) as nat).0,
                take_seq(ops@, p as int, (n - i) as nat).1,
            ),
        decreases n - i,
    {
        let ghost before = v@;
        let (b, p2) = take_byte(ops, p);
        v.push(b);
        proof {
            let rest = take_seq(ops@, p2 as int, (n - i - 1) as nat);
            assert(take_seq(ops@, p as int, (n - i) as nat).0 == seq![b] + rest.0);
            assert(before + (seq![b] + rest.0) =~= v@ + rest.0);
        }
        p = p2;
        i = i + 1;
    }
    assert(v@ + Seq::<u8>::empty() =~= v@);
    (v, p)
}

/// The first `b.len()` bytes of a buffer that `b` was copied into are `b`.
proof fn lemma_filled_prefix(buf: Seq<u8>, b: Seq<u8>)
    ensures
        filled(buf, b).subrange(0, b.len() as int) == b,
{
    assert(filled(buf, b).subrange(0, b.len() as int) =~= b);
}

/// Expects a string into a buffer and hashes it.
fn op_str_buf(reader: &mut Reader<'_>, ops: &[u8], pos: usize, op: u8) -> (r: (usize, u64, u32))
    requires
        old(reader)@.wf(),
        pos <= ops@.len(),
        op == 39,
    ensures
        final(reader)@.wf(),
        pos <= r.0 <= ops@.len(),
        (final(reader)@, r.0 as int, r.1, r.2) == bytes_op(old(reader)@, ops@, pos as int, op),
{
    let mut buf = [0u8; 256];
    let ghost zeros = buf@;
    let ghost sv = buf_step(str_step(reader@), 256);
    assert(buf@.len() == 256);
    match expect::str_buf(reader, &mut buf) {
            Some(n) => {
                let part = slice_subrange(buf.as_slice(), 0, n);
                proof {
                    lemma_filled_prefix(zeros, sv.1->0);
                    assert(part@ =~= buf@.subrange(0, n as int));
                }
                let h = fnv1a32(part);
                (pos, n as u64, h)
            },
            None => (pos, 0, 0),
    }
}

/// Expects a UTF-8 string into a buffer and hashes it.
fn op_utf8(reader: &mut Reader<'_>, ops: &[u8], pos: usize, op: u8) -> (r: (usize, u64, u32))
    requires
        old(reader)@.wf(),
        pos <= ops@.len(),
        op == 40,
    ensures
        final(reader)@.wf(),
        pos <= r.0 <= ops@.len(),
        (final(reader)@, r.0 as int, r.1, r.2) == bytes_op(old(reader)@, ops@, pos as int, op),
{
    let mut buf = [0u8; 256];
    let ghost zeros = buf@;
    let ghost sv = buf_step(str_step(reader@), 256);
    match expect::utf8(reader, &mut buf) {
            Some(n) => {
                let part = slice_subrange(buf.as_slice(), 0, n);
                proof {
                    lemma_filled_prefix(zeros, sv.1->0);
                    assert(part@ =~= buf@.subrange(0, n as int));
                }
                let h = fnv1a32(part);
                (pos, n as u64, h)
            },
            None => (pos, 0, 0),
    }
}

/// Expects a string equal to bytes of the opcode stream.
fn op_str_match(reader: &mut Reader<'_>, ops: &[u8], pos: usize, op: u8) -> (r: (usize, u64, u32))
    requires
        old(reader)@.wf(),
        pos <= ops@.len(),
        op == 41,
    ensures
        final(reader)@.wf(),
        pos <= r.0 <= ops@.len(),
        (final(reader)@, r.0 as int, r.1, r.2) == bytes_op(old(reader)@, ops@, pos as int, op),
{
    let (n, p1) = take_bytes(ops, pos, 1);
    let n: u64 = if n > 32 {
        32
    } else {
        n
    };
    let (want, p2) = take_vec(ops, p1, n as usize);
    let _ = expect::str_match(reader, want.as_slice());
    let h = fnv1a32(want.as_slice());
    (p2, n as u64, h)
}

/// Expects a string as a C string into a buffer and hashes it.
fn op_cstr(reader: &mut Reader<'_>, ops: &[u8], pos: usize, op: u8) -> (r: (usize, u64, u32))
    requires
        old(reader)@.wf(),
        pos <= ops@.len(),
        op == 42 || op == 43,
    ensures
        final(reader)@.wf(),
        pos <= r.0 <= ops@.len(),
        (final(reader)@, r.0 as int, r.1, r.2) == bytes_op(old(reader)@, ops@, pos as int, op),
{
    let mut buf = [0u8; 256];
    let ghost zeros = buf@;
    let ghost sv = if op == 42 {
        cstr_step(reader@, 256, |b: Seq<u8>| !b.contains(0u8))
    } else {
        cstr_step(reader@, 256, |b: Seq<u8>| valid_utf8(b) && !b.contains(0u8))
    };
    let ok = if op == 42 {
        expect::cstr(reader, &mut buf)
    } else {
        expect::utf8_cstr(reader, &mut buf)
    };
    if ok {
        let n = first_zero(buf.as_slice());
        proof {
            let b = sv.1->0;
            let fb = b.push(0u8);
            assert(buf@ == filled(zeros, fb));
            assert(!b.contains(0u8));
            assert forall|i: int| 0 <= i < b.len() implies buf@[i] == b[i] && b[i] != 0 by {
                assert(buf@[i] == fb[i]);
                if b[i] == 0 {
                    assert(b.contains(0u8));
                }
            }
            assert(buf@[b.len() as int] == fb[b.len() as int]);
            if n < b.len() {
                assert(buf@[n as int] != 0);
            }
            if n > b.len() {
                assert(buf@[b.len() as int] == 0);
            }
            assert(n == b.len());
        }
        let part = slice_subrange(buf.as_slice(), 0, n);
        proof {
            assert(part@ =~= sv.1->0);
        }
        let h = fnv1a32(part);
        (pos, n as u64, h)
    } else {
        (pos, 0, 0)
    }
}

/// Expects binary data into a buffer and hashes it.
fn op_bin_buf(reader: &mut Reader<'_>, ops: &[u8], pos: usize, op: u8) -> (r: (usize, u64, u32))
    requires
        old(reader)@.wf(),
        pos <= ops@.len(),
        op == 45,
    ensures
        final(reader)@.wf(),
        pos <= r.0 <= ops@.len(),
        (final(reader)@, r.0 as int, r.1, r.2) == bytes_op(old(reader)@, ops@, pos as int, op),
{
    let mut buf = [0u8; 256];
    let ghost zeros = buf@;
    let ghost sv = buf_step(reader@.typed_step(|t: Tag| tag_bin(t)), 256);
    match expect::bin_buf(reader, &mut buf) {
            Some(n) => {
                let part = slice_subrange(buf.as_slice(), 0, n);
                proof {
                    lemma_filled_prefix(zeros, sv.1->0);
                    assert(part@ =~= buf@.subrange(0, n as int));
                }
                let h = fnv1a32(part);
                (pos, n as u64, h)
            },
            None => (pos, 0, 0),
    }
}

/// Expects binary data of a size read from the opcode stream.
fn op_bin_size(reader: &mut Reader<'_>, ops: &[u8], pos: usize, op: u8) -> (r: (usize, u64, u32))
    requires
        old(reader)@.wf(),
        pos <= ops@.len(),
        op == 46,
    ensures
        final(reader)@.wf(),
        pos <= r.0 <= ops@.len(),
        (final(reader)@, r.0 as int, r.1, r.2) == bytes_op(old(reader)@, ops@, pos as int, op),
{
    let mut buf = [0u8; 256];
    let (size, p1) = take_bytes(ops, pos, 4);
    let size = size as u32;
    let size = if size > 256 {
        256
    } else {
        size
    };
    let ghost zeros = buf@;
    let ghost sv = bin_size_step(reader@, 256, size);
    if expect::bin_size_buf(reader, &mut buf, size) {
        proof {
            lemma_filled_prefix(zeros, sv.1->0);
        }
        let part = slice_subrange(buf.as_slice(), 0, size as usize);
        proof {
            assert(part@ =~= buf@.subrange(0, size as int));
        }
        let h = fnv1a32(part);
        (p1, size as u64, h)
    } else {
        (p1, size as u64, 0)
    }
}

/// Expects extension data into a buffer and hashes it.
fn op_ext_buf(reader: &mut Reader<'_>, ops: &[u8], pos: usize, op: u8) -> (r: (usize, u64, u32))
    requires
        old(reader)@.wf(),
        pos <= ops@.len(),
        op == 48,
    ensures
        final(reader)@.wf(),
        pos <= r.0 <= ops@.len(),
        (final(reader)@, r.0 as int, r.1, r.2) == bytes_op(old(reader)@, ops@, pos as int, op),
{
    let mut buf = [0u8; 256];
    let ghost zeros = buf@;
    let ghost sv = ext_buf_step(reader@, 256);
    match expect::ext_buf(reader, &mut buf) {
        Some((t, n)) => {
            let part = slice_subrange(buf.as_slice(), 0, n);
            proof {
                lemma_filled_prefix(zeros, (sv.1->0).1);
                assert(part@ =~= buf@.subrange(0, n as int));
            }
            let h = fnv1a32(part);
            (pos, ((t as u8 as u64) << 32u64) | (n as u64), h)
        },
        None => (pos, 0, 0),
    }
}

/// Performs a string or binary opcode (see `bytes_op`).
fn bytes_exec(reader: &mut Reader<'_>, ops: &[u8], pos: usize, op: u8) -> (r: (usize, u64, u32))
    requires
        old(reader)@.wf(),
        pos <= ops@.len(),
        38 <= op <= 48,
    ensures
        final(reader)@.wf(),
        pos <= r.0 <= ops@.len(),
        (final(reader)@, r.0 as int, r.1, r.2) == bytes_op(old(reader)@, ops@, pos as int, op),
{
    if op == 38 {
        (pos, match expect::str_(reader) {
            Some(l) => l as u64,
            None => 0,
        }, 0)
    } else if op == 39 {
        op_str_buf(reader, ops, pos, op)
    } else if op == 40 {
        op_utf8(reader, ops, pos, op)
    } else if op == 41 {
        op_str_match(reader, ops, pos, op)
    } else if op == 42 || op == 43 {
        op_cstr(reader, ops, pos, op)
    } else if op == 44 {
        (pos, match expect::bin(reader) {
            Some(l) => l as u64,
            None => 0,
        }, 0)
    } else if op == 45 {
        op_bin_buf(reader, ops, pos, op)
    } else if op == 46 {
        op_bin_size(reader, ops, pos, op)
    } else if op == 47 {
        (pos, match expect::ext(reader) {
            Some((t, n)) => ((t as u8 as u64) << 32u64) | (n as u64),
            None => 0,
        }, 0)
    } else {
        op_ext_buf(reader, ops, pos, op)
    }
}

/// The tag that opcode 49 expects, spelled by the opcode stream after the
/// kind byte `t`; and the position after it.
pub open spec fn wanted_tag(ops: Seq<u8>, pos: int, t: u8) -> (Tag, int) {
    if t == 2 {
        let (b, p) = take_le(ops, pos, 1);
        (Tag::Bool((b as u8) & 1u8 != 0u8), p)
    } else if t == 3 {
        let (v, p) = take_le(ops, pos, 8);
        (Tag::Int(v as u64 as i64), p)
    } else if t == 4 {
        let (v, p) = take_le(ops, pos, 8);
        (Tag::Uint(v as u64), p)
    } else if t == 5 {
        let (v, p) = take_le(ops, pos, 4);
        (Tag::Float(v as u32), p)
    } else if t == 6 {
        let (v, p) = take_le(ops, pos, 8);
        (Tag::Double(v as u64), p)
    } else if t == 7 {
        let (v, p) = take_le(ops, pos, 4);
        (Tag::Str(v as u32), p)
    } else if t == 8 {
        let (v, p) = take_le(ops, pos, 4);
        (Tag::Bin(v as u32), p)
    } else if t == 9 {
        let (v, p) = take_le(ops, pos, 4);
        (Tag::Array(v as u32), p)
    } else if t == 10 {
        let (v, p) = take_le(ops, pos, 4);
        (Tag::Mapping(v as u32), p)
    } else if t == 11 {
        let (e, p1) = take_le(ops, pos, 1);
        let (l, p2) = take_le(ops, p1, 4);
        (Tag::Ext { extension_type: e as u8 as i8, length: l as u32 }, p2)
    } else {
        (Tag::Nil, pos)
    }
}

/// The strings that opcode 53 expects a map key to be one of.
pub open spec fn digest_keys() -> Seq<&'static str> {
    seq!["a", "bb", "ccc"]
}

/// What opcodes 49, 52 and 53 do: expect a tag spelled by the opcode stream
/// (the value recorded is its kind), and expect a map key among the first
/// `n` unsigned integers (`n` read from the stream, 4 when it is 0 or above
/// 8) or among `digest_keys` (the value recorded is the key's index).
pub open spec fn keyed_op(r: ReaderView, ops: Seq<u8>, pos: int, op: u8) -> (ReaderView, int, u64, u32) {
    if op == 49 {
        let (t0, p1) = take_le(ops, pos, 1);
        let t = (t0 as u8) % 12;
        let (want, p2) = wanted_tag(ops, p1, t);
        (match_step(r.tag_step(true), want).0, p2, t as u64, 0)
    } else if op == 52 {
        let (n0, p1) = take_le(ops, pos, 1);
        let n: nat = if n0 == 0 || n0 > 8 {
            4
        } else {
            n0
        };
        let (r2, i, _) = key_uint_step(r, Seq::new(n, |k: int| false));
        (r2, p1, match i {
            Some(k) => k as u64,
            None => 0,
        }, 0)
    } else {
        let (r2, i, _) = key_cstr_step(r, key_bytes(digest_keys()), seq![false, false, false]);
        (r2, pos, match i {
            Some(k) => k as u64,
            None => 0,
        }, 0)
    }
}

/// Reads the tag that opcode 49 expects from the opcode stream.
fn take_tag(ops: &[u8], pos: usize, t: u8) -> (r: (Tag, usize))
    requires
        pos <= ops@.len(),
    ensures
        (r.0, r.1 as int) == wanted_tag(ops@, pos as int, t),
        pos <= r.1 <= ops@.len(),
{
    if t == 2 {
        let (b, p) = take_bytes(ops, pos, 1);
        (Tag::Bool((b as u8) & 1u8 != 0u8), p)
    } else if t == 3 {
        let (v, p) = take_bytes(ops, pos, 8);
        (Tag::Int(v as i64), p)
    } else if t == 4 {
        let (v, p) = take_bytes(ops, pos, 8);
        (Tag::Uint(v), p)
    } else if t == 5 {
        let (v, p) = take_bytes(ops, pos, 4);
        (Tag::Float(v as u32), p)
    } else if t == 6 {
        let (v, p) = take_bytes(ops, pos, 8);
        (Tag::Double(v), p)
    } else if t == 7 {
        let (v, p) = take_bytes(ops, pos, 4);
        (Tag::Str(v as u32), p)
    } else if t == 8 {
        let (v, p) = take_bytes(ops, pos, 4);
        (Tag::Bin(v as u32), p)
    } else if t == 9 {
        let (v, p) = take_bytes(ops, pos, 4);
        (Tag::Array(v as u32), p)
    } else if t == 10 {
        let (v, p) = take_bytes(ops, pos, 4);
        (Tag::Mapping(v as u32), p)
    } else if t == 11 {
        let (e, p1) = take_bytes(ops, pos, 1);
        let (l, p2) = take_bytes(ops, p1, 4);
        (Tag::Ext { extension_type: e as u8 as i8, length: l as u32 }, p2)
    } else {
        (Tag::Nil, pos)
    }
}

/// Performs opcode 49, 52 or 53 (see `keyed_op`).
fn keyed_exec(reader: &mut Reader<'_>, ops: &[u8], pos: usize, op: u8) -> (r: (usize, u64, u32))
    requires
        old(reader)@.wf(),
        pos <= ops@.len(),
        op == 49 || op == 52 || op == 53,
    ensures
        final(reader)@.wf(),
        pos <= r.0 <= ops@.len(),
        (final(reader)@, r.0 as int, r.1, r.2) == keyed_op(old(reader)@, ops@, pos as int, op),
{
    if op == 49 {
        let (t0, p1) = take_bytes(ops, pos, 1);
        let t = (t0 as u8) % 12;
        let (want, p2) = take_tag(ops, p1, t);
        let _ = expect::tag(reader, want);
        (p2, t as u64, 0)
    } else if op == 52 {
        let (n0, p1) = take_bytes(ops, pos, 1);
        let n: usize = if n0 == 0 || n0 > 8 {
            4
        } else {
            n0 as usize
        };
        let mut found: Vec<bool> = Vec::new();
        let mut i: usize = 0;
        while i < n
            invariant
                i <= n,
                found@ == Seq::new(i as nat, |k: int| false),
            decreases n - i,
        {
            found.push(false);
            i = i + 1;
            assert(found@ =~= Seq::new(i as nat, |k: int| false));
        }
        let v = expect::key_uint(reader, found.as_mut_slice());
        (p1, match v {
            Some(k) => k as u64,
            None => 0,
        }, 0)
    } else {
        let keys: [&str; 3] = ["a", "bb", "ccc"];
        let mut found = [false; 3];
        assert(keys@ =~= digest_keys());
        assert(found@ =~= seq![false, false, false]);
        let v = expect::key_cstr(reader, keys.as_slice(), &mut found);
        (pos, match v {
            Some(k) => k as u64,
            None => 0,
        }, 0)
    }
}

/// Whether an opcode converts or compares floats: these read nothing in
/// `expect_op`, and are carried out by the caller.
pub open spec fn is_float_op(op: u8) -> bool {
    op == 22 || op == 23 || op == 26 || op == 27
}

/// What an opcode does to the reader and the opcode stream, and the value
/// and hash it records; float opcodes and codes past 53 do nothing.
#[verifier::opaque]
pub open spec fn op_effect(r: ReaderView, ops: Seq<u8>, pos: int, op: u8) -> (ReaderView, int, u64, u32) {
    if op <= 21 || op == 24 || op == 25 || op == 50 || op == 51 {
        scalar_op(r, ops, pos, op)
    } else if 28 <= op <= 37 {
        compound_op(r, ops, pos, op)
    } else if 38 <= op <= 48 {
        bytes_op(r, ops, pos, op)
    } else if op == 49 || op == 52 || op == 53 {
        keyed_op(r, ops, pos, op)
    } else {
        (r, pos, 0, 0)
    }
}

/// An opcode performed: the reader after it, and its record's fields: the
/// position in the opcode stream after it, 1 if the reader is error-free
/// (0 otherwise), and the value and hash (both 0 when the reader is not).
pub open spec fn expect_op_spec(r: ReaderView, ops: Seq<u8>, pos: int, op: u8) -> (
    ReaderView,
    (usize, u8, u64, u32),
) {
    let (r2, p2, v, h) = op_effect(r, ops, pos, op);
    if r2.error == Error::NoError {
        (r2, (p2 as usize, 1u8, v, h))
    } else {
        (r2, (p2 as usize, 0u8, 0u64, 0u32))
    }
}

/// Performs one opcode of the expect digest on the reader, reading its
/// arguments from `ops` at `pos`; float opcodes read nothing here.
pub fn expect_op(reader: &mut Reader<'_>, ops: &[u8], pos: usize, opcode: u8) -> (rec: (usize, u8, u64, u32))
    requires
        old(reader)@.wf(),
        pos <= ops@.len(),
    ensures
        final(reader)@.wf(),
        pos <= rec.0 <= ops@.len(),
        (final(reader)@, rec) == expect_op_spec(old(reader)@, ops@, pos as int, opcode),
{
    reveal(op_effect);
    let op = opcode;
    let (p, value, hash) = if op <= 21 || op == 24 || op == 25 || op == 50 || op == 51 {
        scalar_exec(reader, ops, pos, op)
    } else if 28 <= op && op <= 37 {
        compound_exec(reader, ops, pos, op)
    } else if 38 <= op && op <= 48 {
        bytes_exec(reader, ops, pos, op)
    } else if op == 49 || op == 52 || op == 53 {
        keyed_exec(reader, ops, pos, op)
    } else {
        (pos, 0, 0)
    };
    if reader.error() == Error::NoError {
        (p, 1, value, hash)
    } else {
        (p, 0, 0, 0)
    }
}

/// The opcode stream and the payload of an expect digest's input: its
/// first byte says how many of the following bytes are opcodes.
pub open spec fn split_input(d: Seq<u8>) -> (Seq<u8>, Seq<u8>) {
    if d.len() == 0 {
        (Seq::empty(), Seq::empty())
    } else {
        let rest = d.subrange(1, d.len() as int);
        let k = if d[0] as int <= rest.len() {
            d[0] as int
        } else {
            rest.len() as int
        };
        (rest.subrange(0, k), rest.subrange(k, rest.len() as int))
    }
}

/// Splits an expect digest's input into its opcode stream and its payload.
pub fn split_expect_input(data: &[u8]) -> (r: (&[u8], &[u8]))
    ensures
        (r.0@, r.1@) == split_input(data@),
{
    if data.len() == 0 {
        let empty: &[u8] = slice_subrange(data, 0, 0);
        return (empty, empty);
    }
    let rest = slice_subrange(data, 1, data.len());
    let split = if (data[0] as usize) <= rest.len() {
        data[0] as usize
    } else {
        rest.len()
    };
    (slice_subrange(rest, 0, split), slice_subrange(rest, split, rest.len()))
}

/// An expect digest under way: the reader, the position in the opcode
/// stream, and the records.
pub struct OpState {
    pub r: ReaderView,
    pub pos: int,
    pub recs: Records,
}

/// Performing opcodes while some remain and the records have room: each
/// takes the next byte of the stream modulo 54 as its code and records the
/// code, the error-free flag, the value and the hash; it stops after a
/// record that finds the records full, and after one that leaves the
/// reader with an error.
pub open spec fn op_run(ops: Seq<u8>, s: OpState) -> OpState
    decreases ops.len() - s.pos,
{
    if !(0 <= s.pos < ops.len()) || s.recs.truncated {
        s
    } else {
        let op = op_byte(ops, s.pos) % 54;
        let (r2, rec) = expect_op_spec(s.r, ops, s.pos + 1, op);
        let s2 = OpState { r: r2, pos: rec.0 as int, recs: s.recs.add(op, rec.1, rec.2, rec.3) };
        if s.recs.count >= MAX_RECORDS || r2.error != Error::NoError {
            s2
        } else if s.pos < s2.pos <= ops.len() {
            op_run(ops, s2)
        } else {
            s2
        }
    }
}

/// The expect digest of `d` (at most `MAX_INPUT_LEN` bytes of it): the
/// opcodes of its opcode stream performed on its payload.
pub open spec fn expect_digest(d: Seq<u8>) -> (i32, u32, u32, u32, Seq<u8>) {
    let (ops, payload) = split_input(capped(d));
    let s = op_run(
        ops,
        OpState {
            r: ReaderView { data: payload, pos: 0, error: Error::NoError },
            pos: 0,
            recs: no_records(),
        },
    );
    digest_of(s.r.error, s.r.pos, s.recs)
}

/// Takes the next opcode of an expect digest: the byte at `pos` modulo 54,
/// and the position after it, while bytes remain and the digest is not
/// truncated.
pub fn next_opcode(out: &Digest, ops: &[u8], pos: usize) -> (r: Option<(u8, usize)>)
    requires
        pos <= ops@.len(),
    ensures
        r is Some <==> (pos < ops@.len() && out.truncated == 0),
        r matches Some((op, next)) ==> op == ops@[pos as int] % 54 && next == pos + 1,
{
    if pos < ops.len() && out.truncated == 0 {
        Some((ops[pos] % 54, pos + 1))
    } else {
        None
    }
}

/// Whether an opcode converts or compares floats.
pub fn is_float_opcode(op: u8) -> (b: bool)
    ensures
        b == is_float_op(op),
{
    op == 22 || op == 23 || op == 26 || op == 27
}

/// The bounds a float opcode reads from the opcode stream at `pos`, as bit
/// patterns, and the position after them: two 4-byte bounds for opcode 26,
/// two 8-byte bounds for opcode 27, none for 22 and 23.
pub open spec fn float_bounds(ops: Seq<u8>, pos: int, op: u8) -> (u64, u64, int) {
    let n: nat = if op == 26 {
        4
    } else if op == 27 {
        8
    } else {
        0
    };
    let (lo, p1) = take_le(ops, pos, n);
    let (hi, p2) = take_le(ops, p1, n);
    (lo as u64, hi as u64, p2)
}

/// The input of float opcode 22, 23, 26 or 27: reads any number (an error
/// of type when the next element is not one) and the bounds' bit patterns
/// from the opcode stream. Converting the number and comparing it with the
/// bounds, flagging an error of type when it falls outside them, is left to
/// the caller; `record_op` then records the converted value's bits.
pub fn float_op_input(reader: &mut Reader<'_>, ops: &[u8], pos: usize, opcode: u8) -> (r: (
    Option<Number>,
    u64,
    u64,
    usize,
))
    requires
        old(reader)@.wf(),
        pos <= ops@.len(),
        is_float_op(opcode),
    ensures
        final(reader)@.wf(),
        (final(reader)@, r.0) == old(reader)@.typed_step(|t: Tag| tag_number(t)),
        (r.1, r.2, r.3 as int) == float_bounds(ops@, pos as int, opcode),
        pos <= r.3 <= ops@.len(),
{
    let n: usize = if opcode == 26 {
        4
    } else if opcode == 27 {
        8
    } else {
        0
    };
    let (lo, p1) = take_bytes(ops, pos, n);
    let (hi, p2) = take_bytes(ops, p1, n);
    let number = expect::number(reader);
    (number, lo, hi, p2)
}

/// The record of an opcode performed: the code, 1 if the reader is
/// error-free (0 otherwise), and the value and hash (both 0 when the reader
/// is not).
pub open spec fn op_record(r: ReaderView, op: u8, value: u64, hash: u32) -> (u8, u8, u64, u32) {
    if r.error == Error::NoError {
        (op, 1u8, value, hash)
    } else {
        (op, 0u8, 0u64, 0u32)
    }
}

/// Records an opcode performed on `reader`; true when the digest goes on:
/// the record found room and the reader is error-free.
pub fn record_op(out: &mut Digest, reader: &Reader<'_>, opcode: u8, value: u64, hash: u32) -> (go: bool)
    requires
        old(out).wf(),
    ensures
        ({
            let rec = op_record(reader@, opcode, value, hash);
            final(out).recs() == old(out).recs().add(rec.0, rec.1, rec.2, rec.3)
        }),
        final(out).wf(),
        final(out).error == old(out).error,
        final(out).bytes_used == old(out).bytes_used,
        go == (old(out).record_count < MAX_RECORDS && reader@.error == Error::NoError),
{
    let ok = reader.error() == Error::NoError;
    let pushed = if ok {
        out.push(opcode, 1, value, hash)
    } else {
        out.push(opcode, 0, 0, 0)
    };
    pushed && ok
}

/// The expect digest of `data`: the first byte says how many of the next
/// bytes are opcodes, and the rest is the payload they are performed on,
/// each recorded as `expect_op` gives it. The float opcodes (22, 23, 26
/// and 27) read nothing here; a digest that carries them out is built from
/// `next_opcode`, `expect_op`, `float_op_input` and `record_op` by a caller
/// that converts and compares floats.
pub fn expect_digest_rust(data: &[u8]) -> (d: Digest)
    ensures
        d.fields() == expect_digest(data@),
{
    let data = cap_input(data);
    let (ops, payload) = split_expect_input(data);
    let mut out = Digest::new();
    let mut reader = Reader::new(payload);
    let mut pos: usize = 0;
    let ghost target = op_run(ops@, OpState { r: reader@, pos: 0, recs: out.recs() });
    loop
        invariant_except_break
            op_run(ops@, OpState { r: reader@, pos: pos as int, recs: out.recs() }) == target,
        invariant
            reader@.wf(),
            out.wf(),
            pos <= ops@.len(),
        ensures
            (OpState { r: reader@, pos: pos as int, recs: out.recs() }) == target,
        decreases ops@.len() - pos,
    {
        let next = next_opcode(&out, ops, pos);
        if next.is_none() {
            break;
        }
        let (opcode, p1) = next.unwrap();
        let (p2, ok, value, hash) = expect_op(&mut reader, ops, p1, opcode);
        assert(op_record(reader@, opcode, value, hash) == (opcode, ok, value, hash));
        pos = p2;
        if !record_op(&mut out, &reader, opcode, value, hash) {
            break;
        }
    }
    out.finish(reader.error(), reader.used());
    out
}

/// One element of a message: its tag and the payload after its header.
pub struct Item {
    pub tag: Tag,
    pub payload: Seq<u8>,
}

/// The length of the payload a tag announces.
pub open spec fn payload_of(tag: Tag) -> nat {
    match tag_record(tag).3 {
        Some(l) => l as nat,
        None => 0,
    }
}

/// An element that reads back as it is written: its payload is as long as
/// its tag announces, and a signed integer is negative (a non-negative one
/// is written, and read, as unsigned).
pub open spec fn item_ok(it: Item) -> bool {
    &&& (it.tag matches Tag::Int(v) ==> v < 0)
    &&& it.payload.len() == payload_of(it.tag)
}

/// The bytes the writer gives an element: its tag's smallest header and
/// its payload.
pub open spec fn item_bytes(it: Item) -> Seq<u8> {
    tag_header(it.tag)->0 + it.payload
}

/// The bytes the writer gives a sequence of elements, in order.
pub open spec fn encoding(items: Seq<Item>) -> Seq<u8>
    decreases items.len(),
{
    if items.len() == 0 {
        Seq::empty()
    } else {
        encoding(items.drop_last()) + item_bytes(items.last())
    }
}

/// Counting the first `k` elements into the value they belong to: whether
/// the top-level value is still to come and the element counts of the open
/// arrays and maps; none when an element comes after the value is complete,
/// at nesting `DEPTH_LIMIT` deep, or when a map is too large to count.
pub open spec fn counts_after(items: Seq<Item>, k: nat) -> Option<(bool, Seq<u32>)>
    decreases k,
{
    if k == 0 {
        Some((true, Seq::empty()))
    } else {
        match counts_after(items, (k - 1) as nat) {
            None => None,
            Some((need, st)) => if !(need || st.len() > 0) || st.len() >= DEPTH_LIMIT {
                None
            } else {
                match open_element(count_element(st, need), items[k - 1].tag) {
                    Some(st2) => Some((false, st2)),
                    None => None,
                }
            },
        }
    }
}

/// `items` are the elements of exactly one value, in order, nested less
/// than `DEPTH_LIMIT` deep, each reading back as it is written.
pub open spec fn one_value(items: Seq<Item>) -> bool {
    &&& forall|i: int| 0 <= i < items.len() ==> item_ok(#[trigger] items[i])
    &&& counts_after(items, items.len()) == Some((false, Seq::<u32>::empty()))
}

proof fn lemma_encoding_next(items: Seq<Item>, k: int)
    requires
        0 <= k < items.len(),
    ensures
        encoding(items.subrange(0, k + 1)) == encoding(items.subrange(0, k)) + item_bytes(items[k]),
{
    assert(items.subrange(0, k + 1).drop_last() =~= items.subrange(0, k));
}

proof fn lemma_encoding_prefix(items: Seq<Item>, k: int, j: int)
    requires
        0 <= k <= j <= items.len(),
    ensures
        encoding(items.subrange(0, k)).len() <= encoding(items.subrange(0, j)).len(),
        encoding(items.subrange(0, j)).subrange(0, encoding(items.subrange(0, k)).len() as int)
            == encoding(items.subrange(0, k)),
    decreases j - k,
{
    let ek = encoding(items.subrange(0, k));
    if j == k {
        assert(ek.subrange(0, ek.len() as int) =~= ek);
    } else {
        lemma_encoding_prefix(items, k, j - 1);
        lemma_encoding_next(items, j - 1);
        let ej1 = encoding(items.subrange(0, j - 1));
        assert((ej1 + item_bytes(items[j - 1])).subrange(0, ek.len() as int) =~= ej1.subrange(
            0,
            ek.len() as int,
        ));
    }
}

proof fn lemma_counts_prefix(items: Seq<Item>, k: nat, n: nat)
    requires
        k <= n,
        counts_after(items, n) is Some,
    ensures
        counts_after(items, k) is Some,
    decreases n - k,
{
    if k < n {
        lemma_counts_prefix(items, (k + 1) as nat, n);
    }
}

/// Copying a payload that is there in full copies it.
proof fn lemma_copy_whole(r: ReaderView, g: GrowView, n: nat)
    requires
        r.wf(),
        r.error == Error::NoError,
        g.error == Error::NoError,
        r.can_read(n as int),
    ensures
        copy_payload(r, g, n) == (r.advance(n as int), g.append(r.payload(n as int))),
    decreases n,
{
    if n > 0 {
        let step: nat = if n < 256 {
            n
        } else {
            256
        };
        let r1 = r.advance(step as int);
        let g1 = g.append(r.payload(step as int));
        lemma_copy_whole(r1, g1, (n - step) as nat);
        assert(r1.advance((n - step) as int) == r.advance(n as int));
        assert(r.payload(step as int) + r1.payload((n - step) as int) =~= r.payload(n as int));
        assert(g1.append(r1.payload((n - step) as int)).bytes =~= g.append(r.payload(n as int)).bytes);
    } else {
        assert(r.payload(0) =~= Seq::<u8>::empty());
        assert(g.bytes + Seq::<u8>::empty() =~= g.bytes);
    }
}

/// The transfer after `k` elements of a message in the writer's smallest
/// encoding, followed by `rest`.
pub open spec fn state_at(items: Seq<Item>, rest: Seq<u8>, k: int) -> TransferState {
    let e = encoding(items.subrange(0, k));
    TransferState {
        r: ReaderView { data: encoding(items) + rest, pos: e.len() as int, error: Error::NoError },
        g: GrowView { bytes: e, error: Error::NoError },
        need: (counts_after(items, k as nat)->0).0,
        stack: (counts_after(items, k as nat)->0).1,
    }
}

proof fn lemma_transfer_item(items: Seq<Item>, rest: Seq<u8>, k: int)
    requires
        one_value(items),
        encoding(items).len() + rest.len() <= MAX_INPUT_LEN,
        0 <= k < items.len(),
    ensures
        transfer_step(state_at(items, rest, k)) == (state_at(items, rest, k + 1), true),
        state_at(items, rest, k).r.pos < state_at(items, rest, k + 1).r.pos <= (encoding(items)
            + rest).len(),
{
    let n = items.len();
    let d = encoding(items) + rest;
    let ek = encoding(items.subrange(0, k));
    let it = items[k];
    assert(item_ok(it));
    let h = tag_header(it.tag)->0;
    lemma_encoding_next(items, k);
    lemma_encoding_prefix(items, k + 1, n as int);
    assert(items.subrange(0, n as int) =~= items);
    lemma_counts_prefix(items, (k + 1) as nat, n as nat);
    let e1 = encoding(items.subrange(0, k + 1));
    assert(e1 == ek + (h + it.payload)) by {
        assert(ek + item_bytes(it) =~= ek + (h + it.payload));
    }
    let pos = ek.len() as int;
    assert(d.subrange(0, e1.len() as int) == e1) by {
        assert(d.subrange(0, e1.len() as int) =~= encoding(items).subrange(0, e1.len() as int));
    }
    let rest2 = d.subrange(pos + h.len(), d.len() as int);
    lemma_tag_header_decodes(it.tag, rest2);
    let r = state_at(items, rest, k).r;
    assert(e1.len() <= encoding(items).len());
    assert(r.rest() =~= h + rest2) by {
        assert(r.rest().len() == (h + rest2).len());
        assert forall|i: int| 0 <= i < r.rest().len() implies #[trigger] r.rest()[i] == (h + rest2)[i] by {
            if i < h.len() {
                assert(d.subrange(0, e1.len() as int)[pos + i] == e1[pos + i]);
                assert(e1[pos + i] == h[i]);
            }
        }
    }
    lemma_read_header(r, h, rest2);
    let r1 = r.advance(h.len() as int);
    let g = state_at(items, rest, k).g;
    let g1 = g.append_opt(tag_header(it.tag));
    assert(g1 == GrowView { bytes: ek + h, error: Error::NoError });
    let l = payload_of(it.tag);
    assert(r1.can_read(l as int));
    assert(r1.payload(l as int) =~= it.payload) by {
        assert forall|i: int| 0 <= i < l implies #[trigger] r1.payload(l as int)[i] == it.payload[i] by {
            assert(d.subrange(0, e1.len() as int)[pos + h.len() + i] == e1[pos + h.len() + i]);
        }
    }
    lemma_copy_whole(r1, g1, l);
    if tag_record(it.tag).3 is None {
        assert(it.payload =~= Seq::<u8>::empty());
        assert(r1.advance(0) == r1);
    }
    assert((ek + h) + it.payload =~= e1);
}

proof fn lemma_transfer_rest(items: Seq<Item>, rest: Seq<u8>, k: int)
    requires
        one_value(items),
        encoding(items).len() + rest.len() <= MAX_INPUT_LEN,
        0 <= k <= items.len(),
    ensures
        transfer_run(state_at(items, rest, k)) == state_at(items, rest, items.len() as int),
    decreases items.len() - k,
{
    if k < items.len() {
        lemma_transfer_item(items, rest, k);
        lemma_transfer_rest(items, rest, k + 1);
        lemma_counts_prefix(items, (k + 1) as nat, items.len());
    }
}

/// Reading a message in the writer's smallest encoding and writing it
/// again gives it back: for the elements of one value nested less than
/// `DEPTH_LIMIT` deep, each reading back as it is written, the transfer of
/// their encoding followed by any bytes, within `MAX_INPUT_LEN` in all,
/// has no error, is not cut, and outputs exactly the encoding.
pub proof fn law_transfer_copies_smallest_encoding(items: Seq<Item>, rest: Seq<u8>)
    requires
        one_value(items),
        encoding(items).len() + rest.len() <= MAX_INPUT_LEN,
    ensures
        writer_transfer(encoding(items) + rest) == (0i32, 0i32, 0u32, encoding(items)),
{
    let d = encoding(items) + rest;
    assert(capped(d) == d);
    assert(items.subrange(0, 0) =~= Seq::<Item>::empty());
    assert(items.subrange(0, items.len() as int) =~= items);
    let s0 = state_at(items, rest, 0);
    assert(s0 == TransferState {
        r: ReaderView { data: capped(d), pos: 0, error: Error::NoError },
        g: GrowView::empty(),
        need: true,
        stack: Seq::empty(),
    });
    lemma_transfer_rest(items, rest, 0);
}

} // verus!
