use vstd::prelude::*;

use crate::state::State;
use crate::vote::VoteHash;

verus! {

/// A block: chains of blocks are the consensus values in the CBC Casper sense.
#[derive(Clone, Debug, PartialEq, Eq)]
pub struct Block<V> {
    /// The hash of the block's parent, or `None` for height-0 blocks.
    pub parent: Option<VoteHash>,
    /// The total number of ancestors, i.e. the height in the blockchain.
    pub height: u64,
    /// The payload, e.g. a list of transactions.
    pub values: Vec<V>,
}

impl<V> Block<V> {
    /// Creates a new block with the given parent and values; the parent must be a known block.
    pub fn new(parent: Option<VoteHash>, values: Vec<V>, state: &State<V>) -> (r: Block<V>)
        requires
            state.blocks_wf(),
            parent matches Some(p) ==> state.blocks_map().contains_key(p),
        ensures
            r.parent == parent,
            r.values == values,
            r.height == match parent {
                Some(p) => (state.blocks_map()[p].height + 1) as u64,
                None => 0,
            },
    {
        let height = match parent {
            Some(p) => {
                // The number of blocks bounds their heights.
                let _ = state.blocks.len();
                assert(crate::state::block_wf(state.blocks@, p));
                state.block(&p).height + 1
            },
            None => 0,
        };
        Block { parent, height, values }
    }
}

} // verus!
