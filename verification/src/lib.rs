//! A peer-to-peer file-sharing library that carries its own datagrams inside
//! broadcast ARP frames on the local Ethernet segment.
//!
//! The library is organised leaves-first: [`payload`] gives the typed
//! application payload and its byte encoding, [`codec`] the chunked on-wire
//! frame format, [`channel`] the send/receive state machine with reassembly,
//! and [`config`] the application-level session state (advertised files,
//! shared files, outstanding requests) and its command dispatch.

use vstd::prelude::*;

pub mod channel;
pub mod codec;
pub mod config;
pub mod errors;
pub mod payload;
pub mod utils;

verus! {

/// 8-byte random nonce grouping the chunks of one logical payload.
pub type Key = [u8; 8];

/// 16-byte content-address identifier of an advertised file.
pub type FileHash = [u8; 16];

/// Compares two byte strings for equality.
pub fn bytes_eq(a: &[u8], b: &[u8]) -> (r: bool)
    ensures
        r == (a@ == b@),
{
    if a.len() != b.len() {
        return false;
    }
    let mut i: usize = 0;
    while i < a.len()
        invariant
            0 <= i <= a@.len(),
            a@.len() == b@.len(),
            forall|j: int| 0 <= j < i ==> a@[j] == b@[j],
        decreases a@.len() - i,
    {
        if a[i] != b[i] {
            return false;
        }
        i = i + 1;
    }
    proof {
        assert(a@ =~= b@);
    }
    true
}

/// Compares two file hashes byte for byte.
pub fn hash_eq(a: &FileHash, b: &FileHash) -> (r: bool)
    ensures
        r == (a@ == b@),
{
    bytes_eq(a.as_slice(), b.as_slice())
}

/// Compares two reassembly keys byte for byte.
pub fn key_eq(a: &Key, b: &Key) -> (r: bool)
    ensures
        r == (a@ == b@),
{
    bytes_eq(a.as_slice(), b.as_slice())
}

} // verus!
