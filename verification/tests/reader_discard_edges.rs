//! Discarding deeply nested data and discarding after an error.

use mpack::common::Error;
use mpack::reader::Reader;

#[test]
fn discard_deep_nesting_completes_iteratively() {
    // 10_000 nested fixarrays of length 1, terminated by nil.
    const DEPTH: usize = 10_000;
    let mut data = vec![0x91u8; DEPTH];
    data.push(0xc0);
    let mut reader = Reader::new(&data);
    reader.discard();
    assert_eq!(reader.error(), Error::NoError);
    assert_eq!(reader.used(), DEPTH + 1);
}

#[test]
fn discard_after_flagged_error_is_noop() {
    let data = [0xc0u8];
    let mut reader = Reader::new(&data);
    reader.flag_error(Error::TooBig);
    reader.discard();
    assert_eq!(reader.error(), Error::TooBig);
    assert_eq!(reader.used(), 0);
}

#[test]
fn discard_a_million_levels_of_nesting() {
    const DEPTH: usize = 1_000_000;
    let mut data = vec![0x91u8; DEPTH];
    data.push(0xc0);
    let mut reader = Reader::new(&data);
    reader.discard();
    assert_eq!(reader.error(), Error::NoError);
    assert_eq!(reader.remaining(), 0);
}
