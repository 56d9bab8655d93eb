//! What a reader gives back of what a writer wrote, on concrete values.

use mpack::common::{Error, Tag, Timestamp};
use mpack::reader::Reader;
use mpack::writer::Writer;

fn written(write: impl FnOnce(&mut Writer)) -> Vec<u8> {
    let mut writer = Writer::new(vec![0_u8; 64]);
    write(&mut writer);
    assert_eq!(writer.error(), Error::NoError);
    writer.written().to_vec()
}

#[test]
fn unsigned_values_read_back_in_every_width() {
    for value in [0_u64, 0x7f, 0x80, 0xff, 0x100, 0xffff, 0x1_0000, 0xffff_ffff, 0x1_0000_0000, u64::MAX] {
        let bytes = written(|w| w.write_u64(value));
        let mut reader = Reader::new(&bytes);
        assert_eq!(reader.read_u64(), Some(value));
        assert_eq!(reader.error(), Error::NoError);
        assert_eq!(reader.remaining(), 0);
    }
}

#[test]
fn signed_values_read_back_in_every_width() {
    for value in [
        0_i64, 1, -1, -32, -33, -128, -129, -32_768, -32_769, i32::MIN as i64, i32::MIN as i64 - 1,
        i64::MIN, i64::MAX,
    ] {
        let bytes = written(|w| w.write_i64(value));
        let mut reader = Reader::new(&bytes);
        assert_eq!(reader.read_i64(), Some(value));
        assert_eq!(reader.error(), Error::NoError);
        assert_eq!(reader.remaining(), 0);
    }
}

#[test]
fn negative_values_use_the_smallest_signed_form() {
    assert_eq!(written(|w| w.write_i64(-32)), vec![0xe0]);
    assert_eq!(written(|w| w.write_i64(-33)), vec![0xd0, 0xdf]);
    assert_eq!(written(|w| w.write_i64(-129)), vec![0xd1, 0xff, 0x7f]);
    assert_eq!(
        written(|w| w.write_i64(-32_769)),
        vec![0xd2, 0xff, 0xff, 0x7f, 0xff]
    );
}

#[test]
fn scalars_and_headers_read_back() {
    let bytes = written(|w| {
        w.write_nil();
        w.write_bool(false);
        w.write_f32_bits(0x7fc0_0001);
        w.write_f64_bits(0x3ff0_0000_0000_0000);
        w.write_array_header(17);
        w.write_map_header(70_000);
    });
    let mut reader = Reader::new(&bytes);
    assert!(reader.read_nil());
    assert_eq!(reader.read_bool(), Some(false));
    assert_eq!(reader.read_f32_bits(), Some(0x7fc0_0001));
    assert_eq!(reader.read_tag(), Some(Tag::Double(0x3ff0_0000_0000_0000)));
    assert_eq!(reader.read_array_header(), Some(17));
    assert_eq!(reader.read_map_header(), Some(70_000));
    assert_eq!(reader.remaining(), 0);
}

#[test]
fn payloads_read_back_after_their_headers() {
    let text = vec![b'x'; 40];
    let bytes = written(|w| {
        w.write_str(&text);
        w.write_bin(&[9, 8, 7]);
        w.write_ext(-5, &[1, 2, 3]);
    });
    let mut reader = Reader::new(&bytes);
    assert_eq!(reader.read_str_header(), Some(40));
    assert_eq!(reader.read_bytes(40), Some(&text[..]));
    assert_eq!(reader.read_bin_header(), Some(3));
    assert_eq!(reader.read_bytes(3), Some(&[9, 8, 7][..]));
    assert_eq!(reader.read_ext_header(), Some((-5, 3)));
    assert_eq!(reader.read_bytes(3), Some(&[1, 2, 3][..]));
    assert_eq!(reader.remaining(), 0);
}

#[test]
fn timestamps_read_back_in_all_three_forms() {
    for (seconds, nanoseconds, size) in [
        (256_i64, 0_u32, 4_usize),
        (0, 999_999_999, 8),
        (0x3_ffff_ffff, 1, 8),
        (-1, 1, 12),
        (i64::MAX, 999_999_999, 12),
    ] {
        let bytes = written(|w| w.write_timestamp(seconds, nanoseconds));
        let mut reader = Reader::new(&bytes);
        assert_eq!(reader.read_ext_header(), Some((-1, size as u32)));
        assert_eq!(
            reader.read_timestamp(size),
            Some(Timestamp {
                seconds,
                nanoseconds
            })
        );
        assert_eq!(reader.remaining(), 0);
    }
}
