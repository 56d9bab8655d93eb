//! A MessagePack encoder, decoder, schema reader and tree parser.

pub mod common;
pub mod endian;
pub mod wire;
pub mod reader;
pub mod writer;
pub mod expect;
pub mod node;
pub mod roundtrip;
pub mod print;
pub mod digest;

use vstd::prelude::*;

verus! {

/// Version of this crate.
pub const VERSION: &'static str = "0.1.0";

} // verus!
