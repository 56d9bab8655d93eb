//! The steps an expect digest is built from, for callers that carry out the
//! float opcodes themselves.

use mpack::common::{Error, Number};
use mpack::digest::{
    expect_digest_rust, expect_op, float_op_input, is_float_opcode, next_opcode, record_op, split_expect_input,
    Digest, MAX_RECORDS,
};
use mpack::reader::Reader;

fn record(type_: u8, aux: u8, value: u64, hash: u32) -> Vec<u8> {
    let mut r = vec![type_, aux, 0, 0];
    r.extend_from_slice(&value.to_le_bytes());
    r.extend_from_slice(&hash.to_le_bytes());
    r
}

#[test]
fn next_opcode_takes_the_byte_modulo_54() {
    let out = Digest::new();
    assert_eq!(next_opcode(&out, &[58, 1], 0), Some((4, 1)));
    assert_eq!(next_opcode(&out, &[58, 1], 1), Some((1, 2)));
    assert_eq!(next_opcode(&out, &[58, 1], 2), None);
}

#[test]
fn next_opcode_stops_once_the_digest_is_truncated() {
    let mut out = Digest::new();
    out.truncated = 1;
    assert_eq!(next_opcode(&out, &[0, 0], 0), None);
}

#[test]
fn float_opcodes_are_told_apart() {
    let floats: Vec<u8> = (0..54).filter(|&op| is_float_opcode(op)).collect();
    assert_eq!(floats, vec![22, 23, 26, 27]);
}

#[test]
fn float_op_input_reads_the_number_and_the_bounds() {
    let payload = [0xcc, 0xc8, 0x05];
    let ops = [1, 0, 0, 0, 2, 0, 0, 0, 9];
    let mut reader = Reader::new(&payload);
    let (number, lo, hi, after) = float_op_input(&mut reader, &ops, 0, 26);
    assert_eq!(number, Some(Number::Uint(200)));
    assert_eq!((lo, hi, after), (1, 2, 8));
    assert_eq!(reader.used(), 2);

    let (number, lo, hi, after) = float_op_input(&mut reader, &ops, 0, 22);
    assert_eq!(number, Some(Number::Uint(5)));
    assert_eq!((lo, hi, after), (0, 0, 0));
}

#[test]
fn float_op_input_reads_eight_byte_bounds_for_doubles() {
    let mut ops = Vec::new();
    ops.extend_from_slice(&1.5f64.to_bits().to_le_bytes());
    ops.extend_from_slice(&2.5f64.to_bits().to_le_bytes());
    let payload = [0xca, 0x40, 0x00, 0x00, 0x00];
    let mut reader = Reader::new(&payload);
    let (number, lo, hi, after) = float_op_input(&mut reader, &ops, 0, 27);
    assert_eq!(number, Some(Number::Float(2.0f32.to_bits())));
    assert_eq!((lo, hi, after), (1.5f64.to_bits(), 2.5f64.to_bits(), 16));
}

#[test]
fn float_op_input_flags_a_type_error_on_a_string() {
    let payload = [0xa1, b'x'];
    let mut reader = Reader::new(&payload);
    let (number, _, _, _) = float_op_input(&mut reader, &[], 0, 23);
    assert_eq!(number, None);
    assert_eq!(reader.error(), Error::Type);
}

#[test]
fn record_op_records_and_says_whether_to_go_on() {
    let payload = [0xc0];
    let mut reader = Reader::new(&payload);
    let mut out = Digest::new();
    assert!(record_op(&mut out, &reader, 7, 42, 9));
    assert_eq!(out.records, record(7, 1, 42, 9));
    reader.flag_error(Error::Type);
    assert!(!record_op(&mut out, &reader, 8, 42, 9));
    assert_eq!(out.record_count, 2);
    assert_eq!(out.records[16..], record(8, 0, 0, 0)[..]);
}

#[test]
fn record_op_marks_a_full_digest_truncated() {
    let reader = Reader::new(&[]);
    let mut out = Digest::new();
    out.record_count = MAX_RECORDS as u32;
    assert!(!record_op(&mut out, &reader, 0, 0, 0));
    assert_eq!(out.truncated, 1);
}

#[test]
fn the_steps_rebuild_the_library_digest() {
    let data = [3u8, 4, 0, 54, 0x05, 0xc0, 0xc0];
    let (ops, payload) = split_expect_input(&data);
    let mut out = Digest::new();
    let mut reader = Reader::new(payload);
    let mut pos = 0;
    while let Some((opcode, next)) = next_opcode(&out, ops, pos) {
        let (after, _, value, hash) = expect_op(&mut reader, ops, next, opcode);
        pos = after;
        if !record_op(&mut out, &reader, opcode, value, hash) {
            break;
        }
    }
    out.finish(reader.error(), reader.used());
    assert_eq!(out, expect_digest_rust(&data));
    assert_eq!(out.record_count, 3);
}
