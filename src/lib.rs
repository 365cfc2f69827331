//! A client library for the clamd TCP protocol: command encoding, the
//! INSTREAM chunk framer and the scan reply parser, with their contracts.
use vstd::prelude::*;

pub mod command;
pub mod error;
pub mod frame;
pub mod responses;

pub use error::ClamAVClientError;
pub use responses::ScanResult;

verus! {

/// One byte on the wire.
pub type Byte = u8;

} // verus!
