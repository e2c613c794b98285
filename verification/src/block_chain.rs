use vstd::prelude::*;

use crate::distance::bytes32_eq;

verus! {

/// The block number to fetch next: the one after the last stored block, or
/// the genesis block where none is stored.
pub fn next_block_number(last_stored: Option<u64>) -> (r: u64)
    requires
        last_stored matches Some(n) ==> n < u64::MAX,
    ensures
        r == match last_stored {
            Some(n) => n + 1,
            None => 0,
        },
{
    match last_stored {
        Some(n) => n + 1,
        None => 0,
    }
}

/// Whether the stored blocks already reach the requested last block.
pub fn nothing_to_do(next_block: u64, last_block: u64) -> (r: bool)
    ensures
        r == (next_block >= last_block),
{
    next_block >= last_block
}

/// A block's parent hash does not match the hash of the block before it.
#[derive(Clone, Copy, Debug, PartialEq, Eq, Structural)]
pub enum ChainError {
    InvalidParent,
}

/// The hash of the last block of a chain that is being stored, if any.
pub struct HashChain {
    last: Option<[u8; 32]>,
}

pub open spec fn hash_view(h: Option<[u8; 32]>) -> Option<Seq<u8>> {
    match h {
        Some(b) => Some(b@),
        None => None,
    }
}

impl HashChain {
    pub closed spec fn last_hash(&self) -> Option<Seq<u8>> {
        hash_view(self.last)
    }

    /// A chain whose last block has the given hash (none for an empty
    /// store).
    pub fn new(last: Option<[u8; 32]>) -> (c: HashChain)
        ensures
            c.last_hash() == hash_view(last),
    {
        HashChain { last }
    }

    /// Adds a block: its parent hash must be the hash of the last block
    /// (any parent is accepted where there is none); the block then becomes
    /// the last one. A mismatch is an error and changes nothing.
    pub fn accept(&mut self, parent_hash: &[u8; 32], hash: &[u8; 32]) -> (r: Result<(), ChainError>)
        ensures
            r is Err <==> (old(self).last_hash() matches Some(h) && h != parent_hash@),
            r is Err ==> r == Err::<(), ChainError>(ChainError::InvalidParent) && final(self).last_hash()
                == old(self).last_hash(),
            r is Ok ==> final(self).last_hash() == Some(hash@),
    {
        match &self.last {
            Some(h) => {
                if !bytes32_eq(h, parent_hash) {
                    return Err(ChainError::InvalidParent);
                }
            },
            None => {},
        }
        self.last = Some(*hash);
        Ok(())
    }
}

} // verus!
