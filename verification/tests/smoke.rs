//! Smoke tests for the crate surface.

use mpack::common::Error;
use mpack::writer::Writer;
use mpack::VERSION;

#[test]
fn crate_version_is_nonempty() {
    assert!(!VERSION.is_empty());
}

#[test]
fn writer_starts_ok() {
    let w = Writer::new(vec![0_u8; 1]);
    assert_eq!(w.error(), Error::NoError);
}
