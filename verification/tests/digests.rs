//! Digests of reading a message element by element and of walking its tree.

use mpack::digest::{node_digest_rust, reader_digest_rust, Digest, MAX_RECORDS, RECORD_SIZE};

fn record(type_: u8, aux: u8, value: u64, hash: u32) -> Vec<u8> {
    let mut r = vec![type_, aux, 0, 0];
    r.extend_from_slice(&value.to_le_bytes());
    r.extend_from_slice(&hash.to_le_bytes());
    r
}

fn records(list: &[Vec<u8>]) -> Vec<u8> {
    list.concat()
}

const FNV_HI: u32 = 0x683a_f69a;
const FNV_A: u32 = 0xe40c_292c;
const FNV_STAR: u32 = 0x2f0c_9f3d;

#[test]
fn reader_digest_of_nil() {
    let d = reader_digest_rust(&[0xc0]);
    assert_eq!(
        d,
        Digest { error: 0, bytes_used: 1, record_count: 1, truncated: 0, records: record(1, 0, 0, 0) }
    );
}

#[test]
fn reader_digest_records_each_element_in_order() {
    let data = [0x92, 0x01, 0xa2, b'h', b'i', 0xff];
    let d = reader_digest_rust(&data);
    assert_eq!(d.error, 0);
    assert_eq!(d.bytes_used, 5);
    assert_eq!(d.record_count, 3);
    assert_eq!(d.truncated, 0);
    assert_eq!(d.records, records(&[record(9, 0, 2, 0), record(4, 0, 1, 0), record(7, 0, 2, FNV_HI)]));
}

#[test]
fn reader_digest_keeps_records_before_an_error() {
    let d = reader_digest_rust(&[0x92, 0x01]);
    assert_eq!(d.error, 3);
    assert_eq!(d.bytes_used, 0);
    assert_eq!(d.record_count, 2);
    assert_eq!(d.records, records(&[record(9, 0, 2, 0), record(4, 0, 1, 0)]));
}

#[test]
fn reader_digest_records_signed_and_extension_values() {
    let data = [0x92, 0xff, 0xd4, 0xfe, 0x2a];
    let d = reader_digest_rust(&data);
    assert_eq!(d.error, 0);
    assert_eq!(d.bytes_used, 5);
    assert_eq!(
        d.records,
        records(&[record(9, 0, 2, 0), record(3, 0, u64::MAX, 0), record(11, 0xfe, 1, FNV_STAR)])
    );
}

#[test]
fn reader_digest_stops_at_the_depth_limit() {
    let mut data = vec![0x91u8; 1025];
    data.push(0xc0);
    let d = reader_digest_rust(&data);
    assert_eq!(d.error, 6);
    assert_eq!(d.bytes_used, 0);
    assert_eq!(d.record_count, 1024);
    assert_eq!(d.records.len(), 1024 * RECORD_SIZE);
}

#[test]
fn reader_digest_truncates_when_records_are_full() {
    let mut data = vec![0xdc, 0x13, 0x88];
    data.extend(vec![0xc0u8; 5000]);
    let d = reader_digest_rust(&data);
    assert_eq!(d.error, 0);
    assert_eq!(d.truncated, 1);
    assert_eq!(d.record_count as usize, MAX_RECORDS);
    assert_eq!(d.bytes_used, 3 + 4096);
    assert_eq!(d.records.len(), MAX_RECORDS * RECORD_SIZE);
}

#[test]
fn reader_digest_rejects_a_map_too_large_to_count() {
    let d = reader_digest_rust(&[0xdf, 0xff, 0xff, 0xff, 0xff]);
    assert_eq!(d.error, 6);
    assert_eq!(d.record_count, 1);
    assert_eq!(d.records, record(10, 0, 0xffff_ffff, 0));
}

#[test]
fn reader_digest_looks_at_the_first_bytes_only() {
    let mut data = vec![0xc6, 0x00, 0x01, 0x11, 0x70];
    data.extend(vec![0u8; 70_000]);
    let d = reader_digest_rust(&data);
    assert_eq!(d.error, 3);
    assert_eq!(d.record_count, 0);
    assert!(d.records.is_empty());
}

#[test]
fn node_digest_walks_in_pre_order() {
    let data = [0x92, 0x01, 0xa2, b'h', b'i'];
    let d = node_digest_rust(&data);
    assert_eq!(d, reader_digest_rust(&data));
    let map = [0x81, 0xa1, b'a', 0xc0];
    let d = node_digest_rust(&map);
    assert_eq!(d.error, 0);
    assert_eq!(d.bytes_used, 4);
    assert_eq!(d.records, records(&[record(10, 0, 1, 0), record(7, 0, 1, FNV_A), record(1, 0, 0, 0)]));
}

#[test]
fn node_digest_of_an_extension_value() {
    let d = node_digest_rust(&[0xd4, 0x05, 0x2a]);
    assert_eq!(d.records, record(11, 5, 1, FNV_STAR));
    assert_eq!(d.bytes_used, 3);
}

#[test]
fn node_digest_of_invalid_input_is_empty() {
    let d = node_digest_rust(&[0x92, 0x01]);
    assert_eq!(
        d,
        Digest { error: 3, bytes_used: 0, record_count: 0, truncated: 0, records: Vec::new() }
    );
}

#[test]
fn node_digest_stops_at_the_depth_limit() {
    let mut data = vec![0x91u8; 1025];
    data.push(0xc0);
    let d = node_digest_rust(&data);
    assert_eq!(d.error, 6);
    assert_eq!(d.bytes_used, 0);
    assert_eq!(d.record_count, 1024);
}

#[test]
fn node_and_reader_digests_agree_on_valid_messages() {
    let messages: [&[u8]; 4] = [
        &[0x83, 0x01, 0xc3, 0xa1, b'x', 0x90, 0xc4, 0x01, 0x07, 0xcb, 0x3f, 0xf0, 0, 0, 0, 0, 0, 0],
        &[0x94, 0xca, 0x3f, 0x80, 0, 0, 0xd6, 0xff, 0, 0, 0, 1, 0x80, 0xd0, 0x80],
        &[0xc2],
        &[0x91, 0x91, 0x91, 0x90],
    ];
    for m in messages {
        assert_eq!(node_digest_rust(m), reader_digest_rust(m));
        assert_eq!(node_digest_rust(m).error, 0);
    }
}
