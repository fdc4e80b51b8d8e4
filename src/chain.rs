use std::collections::BTreeMap;

use vstd::prelude::*;
use vstd::std_specs::iter::IteratorSpec;

verus! {

broadcast use vstd::std_specs::btree::group_btree_axioms;

/// An identifier for the block position in the chain.
pub type BlockIndex = u64;

/// A simple structure to contain a linear progression of blocks, allowing for sparse
/// population, i.e. empty spaces left between blocks.
pub struct Chain<B> {
    pub(crate) blocks: BTreeMap<BlockIndex, B>,
    pub(crate) next_block: BlockIndex,
}

impl<B> Chain<B> {
    pub open(crate) spec fn blocks_view(&self) -> Map<BlockIndex, B> {
        self.blocks@
    }

    /// The length of the chain: one more than the highest index, or 0.
    pub open(crate) spec fn len_spec(&self) -> BlockIndex {
        self.next_block
    }

    pub open(crate) spec fn wf(&self) -> bool {
        forall|i: BlockIndex| #[trigger] self.blocks@.contains_key(i) ==> i < self.next_block
    }

    /// An empty chain.
    pub fn new() -> (r: Self)
        ensures
            r.wf(),
            r.blocks_view() == Map::<BlockIndex, B>::empty(),
            r.len_spec() == 0,
    {
        Chain { blocks: BTreeMap::new(), next_block: 0 }
    }

    /// Appends a new block right after the last one out of all currently held, and returns its
    /// index.
    pub fn append(&mut self, block: B) -> (r: BlockIndex)
        requires
            old(self).wf(),
            old(self).len_spec() < u64::MAX,
        ensures
            final(self).wf(),
            r == old(self).len_spec(),
            final(self).blocks_view() == old(self).blocks_view().insert(r, block),
            final(self).len_spec() == r + 1,
    {
        self.blocks.insert(self.next_block, block);
        let result = self.next_block;
        self.next_block = self.next_block + 1;
        result
    }

    /// Inserts a new block at a given index. Returns the block that was already at this index,
    /// if any.
    pub fn insert(&mut self, index: BlockIndex, block: B) -> (r: Option<B>)
        requires
            old(self).wf(),
            index < u64::MAX,
        ensures
            final(self).wf(),
            final(self).blocks_view() == old(self).blocks_view().insert(index, block),
            final(self).len_spec() == if index >= old(self).len_spec() {
                (index + 1) as u64
            } else {
                old(self).len_spec()
            },
            match r {
                Some(b) => old(self).blocks_view().contains_key(index) && b == old(self).blocks_view()[index],
                None => !old(self).blocks_view().contains_key(index),
            },
    {
        let result = self.blocks.insert(index, block);
        if index >= self.next_block {
            self.next_block = index + 1;
        }
        result
    }

    /// Returns the block at the last index of the chain, if it is known.
    pub fn get_last_block(&self) -> (r: Option<&B>)
        ensures
            r == if self.len_spec() == 0 || !self.blocks_view().contains_key((self.len_spec() - 1) as u64) {
                None::<&B>
            } else {
                Some(&self.blocks_view()[(self.len_spec() - 1) as u64])
            },
    {
        if self.next_block == 0 {
            return None;
        }
        self.blocks.get(&(self.next_block - 1))
    }

    /// Gets the block at a given index.
    pub fn get_block(&self, index: BlockIndex) -> (r: Option<&B>)
        ensures
            r == if self.blocks_view().contains_key(index) {
                Some(&self.blocks_view()[index])
            } else {
                None::<&B>
            },
    {
        self.blocks.get(&index)
    }

    /// Returns the current length of the chain. Empty spaces in the middle count as blocks that
    /// are not known yet.
    pub fn num_blocks(&self) -> (r: u64)
        ensures
            r == self.len_spec(),
    {
        self.next_block
    }

    /// Returns an iterator over all the blocks along with their indices, in index order.
    pub fn blocks_iterator(&self) -> (r: std::collections::btree_map::Iter<'_, BlockIndex, B>)
        ensures
            r.remaining().len() == self.blocks_view().len(),
            forall|k: BlockIndex| #[trigger] self.blocks_view().contains_key(k) ==> r.remaining().contains((&k, &self.blocks_view()[k])),
    {
        self.blocks.iter()
    }
}

} // verus!
