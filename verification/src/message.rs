//! The three wire message variants exchanged between proposer and validator.

use vstd::prelude::*;

verus! {

/// One wire message. Exactly one variant is active per line on the wire;
/// serialization to and from line-delimited JSON happens outside the library.
pub enum Message {
    /// Sent once by each peer immediately after connecting. The signature
    /// covers the big-endian bytes of the timestamp.
    Handshake { pubkey: Vec<u8>, sig: Vec<u8>, ts: u64 },
    /// The whole blob in one message, guarded by its checksum.
    NaiveTransfer { filename: String, data: Vec<u8>, checksum: String },
    /// One erasure-coded shard of a blob, with enough context to drive
    /// accumulation and reconstruction on the receiving side.
    DasShard {
        filename: String,
        original_len: usize,
        index: usize,
        data: Vec<u8>,
        full_file_checksum: String,
    },
}

} // verus!
