//! Marker-byte expects, byte-by-byte string matching and discard reservation.

use mpack::common::{Error, Number};
use mpack::expect;
use mpack::reader::Reader;

#[test]
fn marker_byte_expects_consume_one_byte_of_a_truncated_header() {
    let mut nil = Reader::new(&[0xcf, 1]);
    assert!(!expect::nil(&mut nil));
    assert_eq!(nil.error(), Error::Type);
    assert_eq!(nil.used(), 1);

    let mut reserved = Reader::new(&[0xc1]);
    assert_eq!(expect::bool_(&mut reserved), None);
    assert_eq!(reserved.error(), Error::Type);
    assert_eq!(reserved.used(), 1);

    let mut empty = Reader::new(&[]);
    assert!(!expect::true_(&mut empty));
    assert_eq!(empty.error(), Error::Invalid);
    assert_eq!(empty.used(), 0);
}

#[test]
fn truncated_string_header_is_invalid_and_unread() {
    let mut reader = Reader::new(&[0xd9]);
    assert_eq!(expect::str_(&mut reader), None);
    assert_eq!(reader.error(), Error::Invalid);
    assert_eq!(reader.used(), 0);
}

#[test]
fn string_match_stops_where_input_ends() {
    let mut reader = Reader::new(&[0xa3, b'k', b'e']);
    assert!(!expect::str_match(&mut reader, b"key"));
    assert_eq!(reader.error(), Error::Invalid);
    assert_eq!(reader.used(), 3);

    let mut short = Reader::new(&[0xa2, b'k', b'e']);
    assert!(!expect::str_match(&mut short, b"key"));
    assert_eq!(short.error(), Error::Type);
    assert_eq!(short.used(), 1);
}

#[test]
fn numbers_are_returned_as_encoded() {
    let data = [0x05, 0xff, 0xca, 0x3f, 0x80, 0, 0, 0xcb, 0x40, 0, 0, 0, 0, 0, 0, 0, 0xc0];
    let mut reader = Reader::new(&data);
    assert_eq!(expect::number(&mut reader), Some(Number::Uint(5)));
    assert_eq!(expect::number(&mut reader), Some(Number::Int(-1)));
    assert_eq!(expect::number(&mut reader), Some(Number::Float(0x3f80_0000)));
    assert_eq!(expect::double_bits(&mut reader), Some(0x4000_0000_0000_0000));
    assert_eq!(expect::float_bits(&mut reader), None);
    assert_eq!(reader.error(), Error::Type);
    assert_eq!(reader.used(), data.len());
}

#[test]
fn discard_of_an_oversized_map_stops_after_its_header() {
    let mut reader = Reader::new(&[0x82, 0x01, 0x02, 0x03]);
    reader.discard();
    assert_eq!(reader.error(), Error::Invalid);
    assert_eq!(reader.used(), 1);
}
