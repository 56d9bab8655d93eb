use mpack::common::Error;
use mpack::writer::{Builder, GrowableWriter, TrackKind, WriteTracker, Writer};

#[test]
fn fixed_writer_encodes_extensions_and_all_timestamp_forms() {
    let mut writer = Writer::new(vec![0_u8; 64]);
    writer.write_ext(7, &[1, 2]);
    writer.write_timestamp(256, 0);
    writer.write_timestamp(0, 999_999_999);
    writer.write_timestamp(-1, 1);

    assert_eq!(writer.error(), Error::NoError);
    assert_eq!(
        writer.written(),
        &[
            0xd5, 7, 1, 2, 0xd6, 0xff, 0, 0, 1, 0, 0xd7, 0xff, 0xee, 0x6b, 0x27, 0xfc, 0, 0,
            0, 0, 0xc7, 12, 0xff, 0, 0, 0, 1, 0xff, 0xff, 0xff, 0xff, 0xff, 0xff, 0xff, 0xff,
        ]
    );
}

#[test]
fn timestamp_rejects_out_of_range_nanoseconds_stickily() {
    let mut writer = Writer::new(vec![0_u8; 16]);
    writer.write_timestamp(0, 1_000_000_000);
    writer.write_nil();
    assert_eq!(writer.error(), Error::Bug);
    assert!(writer.written().is_empty());
}

#[test]
fn growable_core_handles_payloads_larger_than_fixed_buffers() {
    let payload = vec![0x5a; 16 * 1024];
    let mut writer = GrowableWriter::with_capacity(1);
    writer.write_array_header(2);
    writer.write_str(b"payload");
    writer.write_bin(&payload);
    assert_eq!(writer.error(), Error::NoError);
    assert_eq!(writer.as_slice()[0], 0x92);
    assert_eq!(&writer.as_slice()[1..9], b"\xa7payload");
    assert_eq!(writer.as_slice().len(), 1 + 8 + 3 + payload.len());
}

#[test]
fn builder_resolves_nested_unknown_compound_sizes() {
    let mut builder = Builder::new();
    builder.build_map();
    builder.write_str(b"nums");
    builder.build_array();
    builder.write_i64(1);
    builder.write_i64(2);
    builder.write_i64(3);
    builder.complete_array().unwrap();
    builder.write_str(b"nil");
    builder.write_nil();
    builder.complete_map().unwrap();
    assert_eq!(
        builder.finish().unwrap(),
        b"\x82\xa4nums\x93\x01\x02\x03\xa3nil\xc0"
    );
}

#[test]
fn tracker_checks_elements_bytes_and_map_pairs() {
    let mut tracker = WriteTracker::default();
    tracker.push(TrackKind::Array, 2);
    tracker.element().unwrap();
    tracker.element().unwrap();
    tracker.pop(TrackKind::Array).unwrap();
    tracker.push(TrackKind::Mapping, 1);
    tracker.element().unwrap();
    assert_eq!(tracker.pop(TrackKind::Mapping), Err(Error::Bug));
    tracker.element().unwrap();
    tracker.pop(TrackKind::Mapping).unwrap();
    tracker.push(TrackKind::Ext, 3);
    tracker.bytes(2).unwrap();
    assert_eq!(tracker.pop(TrackKind::Ext), Err(Error::Bug));
    tracker.bytes(1).unwrap();
    tracker.pop(TrackKind::Ext).unwrap();
    assert_eq!(tracker.finish(), Ok(()));
}
