//! Plain values that blocks, receipts and events are made of.

use vstd::prelude::*;

verus! {

/// A 32-byte hash, held as its two big-endian halves.
#[derive(Clone, Copy, Debug, PartialEq, Eq, Structural)]
pub struct B256 {
    pub high: u128,
    pub low: u128,
}

/// A 20-byte account address, held as its first four and its last sixteen bytes, big-endian.
#[derive(Clone, Copy, Debug, PartialEq, Eq, Structural)]
pub struct Address {
    pub high: u32,
    pub low: u128,
}

/// The height and the hash that identify a block.
#[derive(Clone, Copy, Debug, PartialEq, Eq, Structural)]
pub struct BlockNumHash {
    pub number: u64,
    pub hash: B256,
}

impl BlockNumHash {
    pub fn new(number: u64, hash: B256) -> (block: Self)
        ensures
            block.number == number,
            block.hash == hash,
    {
        Self { number, hash }
    }
}

} // verus!
