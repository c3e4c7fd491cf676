//! Op codes for record types.
use vstd::prelude::*;

verus! {

/// Op code of a message data record.
pub const MESSAGE_DATA: u8 = 0x02;

/// Op code of the bag header record.
pub const BAG_HEADER: u8 = 0x03;

/// Op code of an index data record.
pub const INDEX_DATA: u8 = 0x04;

/// Op code of a chunk record.
pub const CHUNK: u8 = 0x05;

/// Op code of a chunk info record.
pub const CHUNK_INFO: u8 = 0x06;

/// Op code of a connection record.
pub const CONNECTION: u8 = 0x07;

} // verus!
