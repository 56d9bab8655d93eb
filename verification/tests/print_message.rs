//! Printing MessagePack data as pseudo-JSON.

use mpack::print::{error_str, print_message, Printed};
use mpack::common::Error;

fn as_text(printed: &[Printed]) -> String {
    let mut bytes = Vec::new();
    for piece in printed {
        match piece {
            Printed::Char(b) => bytes.push(*b),
            Printed::Float(bits) => bytes.extend(format!("<f{bits:08x}>").into_bytes()),
            Printed::Double(bits) => bytes.extend(format!("<d{bits:016x}>").into_bytes()),
        }
    }
    String::from_utf8(bytes).unwrap()
}

#[test]
fn prints_scalars() {
    assert_eq!(as_text(&print_message(&[0xc0], 0)), "null");
    assert_eq!(as_text(&print_message(&[0xc3], 0)), "true");
    assert_eq!(as_text(&print_message(&[0xc2], 0)), "false");
    assert_eq!(as_text(&print_message(&[0xd0, 0x80], 0)), "-128");
    assert_eq!(
        as_text(&print_message(&[0xd3, 0x80, 0, 0, 0, 0, 0, 0, 0], 0)),
        "-9223372036854775808"
    );
    assert_eq!(
        as_text(&print_message(&[0xcf, 0xff, 0xff, 0xff, 0xff, 0xff, 0xff, 0xff, 0xff], 0)),
        "18446744073709551615"
    );
    assert_eq!(
        print_message(&[0xca, 0x3f, 0x80, 0, 0], 0),
        vec![Printed::Float(0x3f80_0000)]
    );
}

#[test]
fn prints_nested_compounds_with_indentation() {
    let data = [0x82, 0xa1, b'a', 0x92, 0x01, 0x02, 0xa1, b'b', 0x90];
    assert_eq!(
        as_text(&print_message(&data, 0)),
        "{\n    \"a\": [\n        1,\n        2\n    ],\n    \"b\": [\n    ]\n}"
    );
}

#[test]
fn escapes_strings() {
    let data = [0xa4, b'a', b'"', b'\\', b'\n'];
    assert_eq!(as_text(&print_message(&data, 0)), "\"a\\\"\\\\\\n\"");
}

#[test]
fn prints_payload_prefixes() {
    assert_eq!(
        as_text(&print_message(&[0xc4, 0x02, 0xab, 0x01], 0)),
        "<binary data of length 2: ab01>"
    );
    assert_eq!(as_text(&print_message(&[0xc4, 0x00], 0)), "<binary data of length 0>");
    let mut long = vec![0xc4, 13];
    long.extend(0..13_u8);
    assert_eq!(
        as_text(&print_message(&long, 0)),
        "<binary data of length 13: 000102030405060708090a0b...>"
    );
    assert_eq!(
        as_text(&print_message(&[0xd4, 0xfe, 0x7f], 0)),
        "<ext data of type -2 and length 1: 7f>"
    );
}

#[test]
fn reports_errors_and_extra_bytes() {
    assert_eq!(as_text(&print_message(&[0xc0, 0xc0, 0xc0], 0)), "null\n<2 extra bytes at end of message>");
    assert_eq!(
        as_text(&print_message(&[0x92, 0x01], 0)),
        "[\n    1,\n    \n<mpack parsing error mpack_error_invalid>"
    );
    assert_eq!(
        as_text(&print_message(&[0xa3, b'a'], 0)),
        "\"\"\n<mpack parsing error mpack_error_invalid>"
    );
    assert_eq!(as_text(&print_message(&[], 0)), "\n<mpack parsing error mpack_error_invalid>");
}

#[test]
fn indents_the_first_line_at_depth() {
    assert_eq!(as_text(&print_message(&[0x91, 0x07], 2)), "        [\n            7\n        ]");
}

#[test]
fn names_every_error() {
    assert_eq!(error_str(Error::NoError), "mpack_ok");
    assert_eq!(error_str(Error::TooBig), "mpack_error_too_big");
    assert_eq!(error_str(Error::Eof), "mpack_error_eof");
}

#[test]
fn prints_deep_nesting_with_growing_indentation() {
    const DEPTH: usize = 500;
    let mut data = vec![0x91u8; DEPTH];
    data.push(0xc0);
    let mut expected = String::from("[\n");
    for level in 1..DEPTH {
        expected.push_str(&" ".repeat(4 * level));
        expected.push_str("[\n");
    }
    expected.push_str(&" ".repeat(4 * DEPTH));
    expected.push_str("null");
    for level in (0..DEPTH).rev() {
        expected.push('\n');
        expected.push_str(&" ".repeat(4 * level));
        expected.push(']');
    }
    assert_eq!(as_text(&print_message(&data, 0)), expected);
}
