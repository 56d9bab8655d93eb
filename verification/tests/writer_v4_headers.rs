//! String headers in the older MessagePack format, which has no `str8`.

use mpack::common::Error;
use mpack::writer::Writer;

fn v4_header(length: usize) -> Vec<u8> {
    let mut writer = Writer::new(vec![0_u8; 8]);
    writer.write_str_header_v4(length);
    assert_eq!(writer.error(), Error::NoError);
    writer.written().to_vec()
}

#[test]
fn short_strings_use_the_fixed_form() {
    assert_eq!(v4_header(0), vec![0xa0]);
    assert_eq!(v4_header(31), vec![0xbf]);
}

#[test]
fn lengths_that_would_take_str8_take_str16() {
    assert_eq!(v4_header(32), vec![0xda, 0x00, 0x20]);
    assert_eq!(v4_header(255), vec![0xda, 0x00, 0xff]);
    assert_eq!(v4_header(65_535), vec![0xda, 0xff, 0xff]);
}

#[test]
fn long_strings_take_str32() {
    assert_eq!(v4_header(65_536), vec![0xdb, 0x00, 0x01, 0x00, 0x00]);
}

#[test]
fn the_newer_format_uses_str8_where_the_older_does_not() {
    let mut writer = Writer::new(vec![0_u8; 8]);
    writer.write_str_header(32);
    assert_eq!(writer.written(), &[0xd9, 0x20]);
}
