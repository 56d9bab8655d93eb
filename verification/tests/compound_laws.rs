//! Compound tracking and building on concrete values.

use mpack::common::Error;
use mpack::writer::{Builder, TrackKind, WriteTracker};

#[test]
fn balanced_compounds_leave_the_tracker_empty() {
    let mut tracker = WriteTracker::default();
    tracker.push(TrackKind::Mapping, 2);
    for _ in 0..4 {
        assert_eq!(tracker.element(), Ok(()));
    }
    assert_eq!(tracker.element(), Err(Error::Bug));
    assert_eq!(tracker.pop(TrackKind::Mapping), Ok(()));
    tracker.push(TrackKind::Str, 5);
    assert_eq!(tracker.element(), Err(Error::Bug));
    assert_eq!(tracker.bytes(6), Err(Error::Bug));
    assert_eq!(tracker.bytes(5), Ok(()));
    assert_eq!(tracker.pop(TrackKind::Bin), Err(Error::Bug));
    assert_eq!(tracker.pop(TrackKind::Str), Ok(()));
    assert_eq!(tracker.finish(), Ok(()));
}

#[test]
fn unfinished_tracker_reports_bug() {
    let mut tracker = WriteTracker::default();
    tracker.push(TrackKind::Array, 0);
    assert_eq!(tracker.bytes(0), Err(Error::Bug));
    assert_eq!(tracker.finish(), Err(Error::Bug));
}

#[test]
fn builder_writes_header_for_the_final_count() {
    let mut builder = Builder::new();
    builder.build_array();
    for value in 0..16_u64 {
        builder.write_u64(value);
    }
    builder.complete_array().unwrap();
    let mut expected = vec![0xdc, 0x00, 0x10];
    expected.extend(0..16_u8);
    assert_eq!(builder.finish().unwrap(), expected);
}

#[test]
fn builder_rejects_odd_maps_and_unclosed_compounds() {
    let mut builder = Builder::new();
    builder.build_map();
    builder.write_bool(true);
    assert_eq!(builder.complete_map(), Err(Error::Bug));
    assert_eq!(builder.finish().unwrap(), Vec::<u8>::new());

    let mut open = Builder::new();
    open.build_array();
    open.write_nil();
    assert_eq!(open.complete_map(), Err(Error::Bug));
    let mut unclosed = Builder::new();
    unclosed.build_array();
    assert_eq!(unclosed.finish(), Err(Error::Bug));
}
