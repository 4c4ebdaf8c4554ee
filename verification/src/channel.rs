//! The block descriptor that action-log records carry.

use vstd::prelude::*;

verus! {

/// One block of the chain: its level and the hashes identifying it.
pub struct Block {
    pub block_level: u32,
    pub block_hash: Vec<u8>,
    pub predecessor_hash: Vec<u8>,
}

impl Block {
    /// A block from its parts.
    pub fn new(block_level: u32, block_hash: Vec<u8>, predecessor_hash: Vec<u8>) -> (r: Block)
        ensures
            r.block_level == block_level,
            r.block_hash@ == block_hash@,
            r.predecessor_hash@ == predecessor_hash@,
    {
        Block { block_level, block_hash, predecessor_hash }
    }
}

} // verus!
