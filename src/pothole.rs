use vstd::prelude::*;

use crate::chain::{BlockIndex, Chain};

verus! {

/// An identifier for a timer set to fire at a later moment.
pub type TimerId = u64;

/// How long the dictator waits between block proposals, in milliseconds.
pub const BLOCK_PROPOSE_MILLIS: u64 = 10_000;

/// Possible effects that could result from the consensus operations.
#[derive(Debug)]
pub enum PotholeResult<B> {
    /// A request for a timer to be scheduled, at an instant in milliseconds.
    ScheduleTimer(TimerId, u64),
    /// A request for a block to be proposed.
    CreateNewBlock,
    /// A notification that a block has been finalized.
    FinalizedBlock(BlockIndex, B),
}

/// The state of the consensus protocol.
pub enum Pothole<B> {
    /// The node that determines the order of blocks.
    Dictator {
        chain: Chain<B>,
        /// The ID of a timer that fires when we are supposed to propose a new block.
        block_timer: TimerId,
    },
    /// Any other node.
    Follower { chain: Chain<B> },
}

/// The instant at which to propose the next block, after `now`; the latest instant if that
/// cannot be represented.
pub open spec fn next_proposal(now: u64) -> u64 {
    if now <= u64::MAX - BLOCK_PROPOSE_MILLIS {
        (now + BLOCK_PROPOSE_MILLIS) as u64
    } else {
        u64::MAX
    }
}

fn next_proposal_exec(now: u64) -> (r: u64)
    ensures
        r == next_proposal(now),
{
    if now <= u64::MAX - BLOCK_PROPOSE_MILLIS {
        now + BLOCK_PROPOSE_MILLIS
    } else {
        u64::MAX
    }
}

/// Whether `our_id` is the least of `all_nodes`.
pub open spec fn is_first(our_id: u64, all_nodes: Seq<u64>) -> bool {
    &&& all_nodes.contains(our_id)
    &&& forall|i: int| 0 <= i < all_nodes.len() ==> our_id <= #[trigger] all_nodes[i]
}

/// The dictator's block timer, or `None` for a follower.
pub open spec fn dictator_timer<B>(p: Pothole<B>) -> Option<TimerId> {
    match p {
        Pothole::Dictator { block_timer, .. } => Some(block_timer),
        Pothole::Follower { .. } => None,
    }
}

impl<B: Clone> Pothole<B> {
    pub open(crate) spec fn chain_spec(&self) -> Chain<B> {
        match *self {
            Pothole::Dictator { chain, .. } => chain,
            Pothole::Follower { chain } => chain,
        }
    }

    pub open(crate) spec fn wf(&self) -> bool {
        self.chain_spec().wf()
    }

    /// Creates a new instance of the protocol at the instant `now`, in milliseconds. If this node
    /// is the first among the peers, it becomes the dictator, the node determining the order of
    /// blocks, and asks for a timer to propose a block.
    pub fn new(our_id: u64, all_nodes: &[u64], now: u64) -> (r: (Self, Vec<PotholeResult<B>>))
        ensures
            r.0.wf(),
            r.0.chain_spec().blocks_view() == Map::<BlockIndex, B>::empty(),
            r.0.chain_spec().len_spec() == 0,
            is_first(our_id, all_nodes@) ==> dictator_timer(r.0) == Some(0u64) && r.1@ == seq![
                PotholeResult::<B>::ScheduleTimer(0, next_proposal(now)),
            ],
            !is_first(our_id, all_nodes@) ==> r.0 is Follower && r.1@.len() == 0,
    {
        let mut found = false;
        let mut least = true;
        let mut i: usize = 0;
        while i < all_nodes.len()
            invariant
                i <= all_nodes@.len(),
                found <==> all_nodes@.take(i as int).contains(our_id),
                least <==> forall|k: int| 0 <= k < i ==> our_id <= #[trigger] all_nodes@[k],
            decreases all_nodes@.len() - i,
        {
            proof {
                let t0 = all_nodes@.take(i as int);
                let t1 = all_nodes@.take(i as int + 1);
                assert(t1 =~= t0.push(all_nodes@[i as int]));
                if t0.contains(our_id) {
                    let j = choose|j: int| 0 <= j < t0.len() && t0[j] == our_id;
                    assert(t1[j] == our_id);
                }
                if t1.contains(our_id) && all_nodes@[i as int] != our_id {
                    let j = choose|j: int| 0 <= j < t1.len() && t1[j] == our_id;
                    assert(t0[j] == our_id);
                }
                if all_nodes@[i as int] == our_id {
                    assert(t1[i as int] == our_id);
                }
            }
            if all_nodes[i] == our_id {
                found = true;
            }
            if all_nodes[i] < our_id {
                least = false;
            }
            i = i + 1;
        }
        assert(all_nodes@.take(all_nodes@.len() as int) =~= all_nodes@);
        if found && least {
            let mut results: Vec<PotholeResult<B>> = Vec::new();
            results.push(PotholeResult::ScheduleTimer(0, next_proposal_exec(now)));
            assert(results@ =~= seq![PotholeResult::<B>::ScheduleTimer(0, next_proposal(now))]);
            (Pothole::Dictator { chain: Chain::new(), block_timer: 0 }, results)
        } else {
            (Pothole::Follower { chain: Chain::new() }, Vec::new())
        }
    }

    /// Handles a timer event at the instant `now`: the dictator's block timer asks for a new
    /// block and for the next timer.
    pub fn handle_timer(&mut self, timer: TimerId, now: u64) -> (r: Vec<PotholeResult<B>>)
        requires
            old(self).wf(),
        ensures
            final(self).wf(),
            *final(self) == *old(self),
            dictator_timer(*old(self)) == Some(timer) ==> r@ == seq![
                PotholeResult::<B>::CreateNewBlock,
                PotholeResult::<B>::ScheduleTimer(timer, next_proposal(now)),
            ],
            dictator_timer(*old(self)) != Some(timer) ==> r@.len() == 0,
    {
        match self {
            Pothole::Dictator { block_timer, .. } => if *block_timer == timer {
                let mut results: Vec<PotholeResult<B>> = Vec::new();
                results.push(PotholeResult::CreateNewBlock);
                results.push(PotholeResult::ScheduleTimer(timer, next_proposal_exec(now)));
                assert(results@ =~= seq![
                    PotholeResult::<B>::CreateNewBlock,
                    PotholeResult::<B>::ScheduleTimer(timer, next_proposal(now)),
                ]);
                results
            } else {
                Vec::new()
            },
            Pothole::Follower { .. } => Vec::new(),
        }
    }

    /// Proposes a new block for the chain: the dictator appends and finalizes it.
    pub fn propose_block(&mut self, block: B) -> (r: Vec<PotholeResult<B>>)
        requires
            old(self).wf(),
        ensures
            final(self).wf(),
            (*old(self) is Dictator && old(self).chain_spec().len_spec() < u64::MAX) ==> {
                &&& *final(self) is Dictator
                &&& final(self).chain_spec().blocks_view() == old(self).chain_spec().blocks_view().insert(
                    old(self).chain_spec().len_spec(),
                    block,
                )
                &&& final(self).chain_spec().len_spec() == old(self).chain_spec().len_spec() + 1
                &&& r@.len() == 1
                &&& (r@[0] matches PotholeResult::FinalizedBlock(i, b) && i == old(self).chain_spec().len_spec()
                    && cloned(block, b))
            },
            !(*old(self) is Dictator && old(self).chain_spec().len_spec() < u64::MAX) ==> *final(self)
                == *old(self) && r@.len() == 0,
    {
        match self {
            Pothole::Dictator { chain, .. } => {
                if chain.num_blocks() == u64::MAX {
                    return Vec::new();
                }
                let copy = block.clone();
                let index = chain.append(block);
                let mut results: Vec<PotholeResult<B>> = Vec::new();
                results.push(PotholeResult::FinalizedBlock(index, copy));
                results
            },
            Pothole::Follower { .. } => Vec::new(),
        }
    }

    /// Handles a notification about a new block having been finalized: a follower that did not
    /// know a block at that index records and reports it.
    pub fn handle_new_block(&mut self, index: BlockIndex, block: B) -> (r: Vec<PotholeResult<B>>)
        requires
            old(self).wf(),
        ensures
            final(self).wf(),
            (*old(self) is Follower && index < u64::MAX) ==> {
                &&& *final(self) is Follower
                &&& final(self).chain_spec().blocks_view() == old(self).chain_spec().blocks_view().insert(index, block)
                &&& (!old(self).chain_spec().blocks_view().contains_key(index) ==> r@.len() == 1
                    && (r@[0] matches PotholeResult::FinalizedBlock(i, b) && i == index && cloned(block, b)))
                &&& (old(self).chain_spec().blocks_view().contains_key(index) ==> r@.len() == 0)
            },
            !(*old(self) is Follower && index < u64::MAX) ==> *final(self) == *old(self) && r@.len() == 0,
    {
        match self {
            Pothole::Dictator { .. } => Vec::new(),
            Pothole::Follower { chain } => {
                if index == u64::MAX {
                    return Vec::new();
                }
                let copy = block.clone();
                if chain.insert(index, block).is_none() {
                    let mut results: Vec<PotholeResult<B>> = Vec::new();
                    results.push(PotholeResult::FinalizedBlock(index, copy));
                    results
                } else {
                    Vec::new()
                }
            },
        }
    }

    /// Returns a reference to the chain.
    pub fn chain(&self) -> (r: &Chain<B>)
        ensures
            *r == self.chain_spec(),
    {
        match self {
            Pothole::Dictator { chain, .. } => chain,
            Pothole::Follower { chain } => chain,
        }
    }
}

} // verus!
