use std::collections::HashMap;

use vstd::prelude::*;

use crate::block::Block;
use crate::vertex::{clones, values_cloned, Dependency, Evidence, WireVote};
use crate::vote::{Observation, Panorama, ValidatorIndex, Vote, VoteHash, Weight};

verus! {

broadcast use vstd::std_specs::hash::group_hash_axioms;

/// The reason a vote is invalid.
#[derive(Clone, Copy, Debug, PartialEq, Eq, Structural)]
pub enum VoteError {
    /// The vote's panorama is inconsistent.
    Panorama,
    /// The vote contains the wrong sequence number.
    SequenceNumber,
    /// The vote's hash is that of a different known vote.
    Hash,
}

/// An error that occurred when trying to add a vote.
#[derive(Debug)]
pub struct AddVoteError<V> {
    /// The invalid vote that was not added to the protocol state.
    pub wvote: WireVote<V>,
    /// The reason the vote is invalid.
    pub cause: VoteError,
}

impl<V> WireVote<V> {
    fn with_error(self, cause: VoteError) -> (r: AddVoteError<V>)
        ensures
            r.wvote == self,
            r.cause == cause,
    {
        AddVoteError { wvote: self, cause }
    }
}

// ---------------------------------------------------------------------------
// The mathematical model of the vote DAG.

/// Sum of the weights `ws[i]` for `i < k`.
pub open spec fn weight_upto(ws: Seq<Weight>, k: int) -> int
    decreases k,
{
    if k <= 0 {
        0
    } else {
        weight_upto(ws, k - 1) + ws[k - 1].0
    }
}

/// The total weight of all validators.
pub open spec fn total_weight(ws: Seq<Weight>) -> int {
    weight_upto(ws, ws.len() as int)
}

/// Sum of the weights `ws[i]` for `i < k` with `pan[i]` faulty.
pub open spec fn faulty_upto(ws: Seq<Weight>, pan: Seq<Observation>, k: int) -> int
    decreases k,
{
    if k <= 0 {
        0
    } else {
        faulty_upto(ws, pan, k - 1) + if pan[k - 1] is Faulty {
            ws[k - 1].0 as int
        } else {
            0
        }
    }
}

/// The total weight of the validators observed as faulty in `pan`.
pub open spec fn faulty_weight(ws: Seq<Weight>, pan: Seq<Observation>) -> int {
    faulty_upto(ws, pan, ws.len() as int)
}

/// The vote with sequence number `n` in the swimlane ending in `h`, found by following each
/// vote's own previous vote.
pub open spec fn swimlane_at(votes: Map<VoteHash, Vote>, h: VoteHash, n: u64) -> Option<VoteHash>
    decreases votes[h].seq_number,
{
    if !votes.contains_key(h) || votes[h].seq_number < n {
        None
    } else if votes[h].seq_number == n {
        Some(h)
    } else {
        match votes[h].panorama@[votes[h].sender.0 as int] {
            Observation::Correct(p) => if votes.contains_key(p) && votes[p].seq_number
                < votes[h].seq_number {
                swimlane_at(votes, p, n)
            } else {
                None
            },
            _ => None,
        }
    }
}

/// Whether `b` is `a` or one of the earlier votes in `a`'s swimlane.
pub open spec fn in_swimlane(votes: Map<VoteHash, Vote>, a: VoteHash, b: VoteHash) -> bool {
    votes.contains_key(b) && swimlane_at(votes, a, votes[b].seq_number) == Some(b)
}

/// Whether `l` can come later in time than `r`.
pub open spec fn obs_geq(votes: Map<VoteHash, Vote>, l: Observation, r: Observation) -> bool {
    match (l, r) {
        (Observation::Faulty, _) => true,
        (_, Observation::Unseen) => true,
        (Observation::Correct(h0), Observation::Correct(h1)) => in_swimlane(votes, h0, h1),
        _ => false,
    }
}

/// Whether `l` can come later in time than `r`, entry by entry.
pub open spec fn panorama_geq(
    votes: Map<VoteHash, Vote>,
    l: Seq<Observation>,
    r: Seq<Observation>,
) -> bool {
    &&& l.len() == r.len()
    &&& forall|j: int| 0 <= j < l.len() ==> obs_geq(votes, #[trigger] l[j], r[j])
}

/// The first vote hash at or after position `i` that is observed as correct.
pub open spec fn first_correct(pan: Seq<Observation>, i: int) -> Option<VoteHash>
    decreases pan.len() - i,
{
    if i < 0 || i >= pan.len() {
        None
    } else {
        match pan[i] {
            Observation::Correct(h) => Some(h),
            _ => first_correct(pan, i + 1),
        }
    }
}

/// Entry `j` of a panorama by validator `sender` names a known vote by `j`, and does not
/// see its own sender as faulty.
pub open spec fn entry_wf(votes: Map<VoteHash, Vote>, obs: Observation, j: int, sender: int) -> bool {
    match obs {
        Observation::Correct(p) => votes.contains_key(p) && votes[p].sender.0 == j,
        Observation::Faulty => j != sender,
        Observation::Unseen => true,
    }
}

/// Every correct entry of `pan` names a known vote.
pub open spec fn known_votes<V>(s: State<V>, pan: Seq<Observation>) -> bool {
    forall|i: int|
        0 <= i < pan.len() ==> (#[trigger] pan[i] matches Observation::Correct(h) ==> s.votes_map().contains_key(h))
}

/// A stored vote is well formed: it references only known votes, each at its sender's
/// position, and its own previous vote has the preceding sequence number.
pub open spec fn vote_wf(votes: Map<VoteHash, Vote>, h: VoteHash, n: nat) -> bool {
    &&& (votes[h].sender.0 as nat) < n
    &&& votes[h].panorama@.len() == n
    &&& forall|j: int|
        0 <= j < n ==> entry_wf(votes, #[trigger] votes[h].panorama@[j], j, votes[h].sender.0 as int)
    &&& match votes[h].panorama@[votes[h].sender.0 as int] {
        Observation::Unseen => votes[h].seq_number == 0,
        Observation::Correct(p) => votes[p].seq_number + 1 == votes[h].seq_number,
        Observation::Faulty => false,
    }
}

/// All stored votes are well formed.
pub open spec fn votes_wf(votes: Map<VoteHash, Vote>, n: nat) -> bool {
    forall|h: VoteHash| #[trigger] votes.contains_key(h) ==> vote_wf(votes, h, n)
}

/// A stored block is the child of a stored block, one level higher, or a height-0 block.
pub open spec fn block_wf<V>(blocks: Map<VoteHash, Block<V>>, h: VoteHash) -> bool {
    &&& match blocks[h].parent {
        Option::None => blocks[h].height == 0,
        Option::Some(p) => blocks.contains_key(p) && blocks[p].height + 1 == blocks[h].height,
    }
    &&& (blocks[h].height as nat) < blocks.len()
}

/// The state's latest observation of validator `i` accounts for all of `i`'s votes.
pub open spec fn slot_wf(votes: Map<VoteHash, Vote>, obs: Observation, i: int) -> bool {
    match obs {
        Observation::Unseen => forall|h: VoteHash| #[trigger]
            votes.contains_key(h) ==> votes[h].sender.0 != i,
        Observation::Correct(h0) => {
            &&& votes.contains_key(h0)
            &&& votes[h0].sender.0 == i
            &&& forall|h: VoteHash|
                #[trigger] votes.contains_key(h) && votes[h].sender.0 == i ==> in_swimlane(
                    votes,
                    h0,
                    h,
                )
        },
        Observation::Faulty => true,
    }
}

/// Whether two panoramas hold the same observations.
fn same_panorama(a: &Panorama, b: &Panorama) -> (r: bool)
    ensures
        r == (a@ == b@),
{
    if a.len() != b.len() {
        return false;
    }
    let mut i: usize = 0;
    while i < a.len()
        invariant
            a@.len() == b@.len(),
            i <= a@.len(),
            forall|k: int| 0 <= k < i ==> a@[k] == b@[k],
        decreases a@.len() - i,
    {
        if a.0[i] != b.0[i] {
            return false;
        }
        i = i + 1;
    }
    assert(a@ =~= b@);
    true
}

/// A passive instance of the Highway protocol, containing its local state.
///
/// Both observers and active validators must instantiate this, pass in all incoming vertices
/// from peers, and use a `FinalityDetector` to determine the outcome of the consensus process.
pub struct State<V> {
    /// All votes imported so far, by hash.
    pub(crate) votes: HashMap<VoteHash, Vote>,
    /// All blocks, by the hash of the vote that introduced them.
    pub(crate) blocks: HashMap<VoteHash, Block<V>>,
    /// Evidence to prove a validator malicious, by index.
    pub(crate) evidence: Vec<Option<Evidence<V>>>,
    /// The full panorama, corresponding to the complete protocol state.
    pub(crate) panorama: Panorama,
    /// The validators' weights, by index.
    pub(crate) weights: Vec<Weight>,
}

impl<V> State<V> {
    pub open(crate) spec fn votes_map(&self) -> Map<VoteHash, Vote> {
        self.votes@
    }

    pub open(crate) spec fn blocks_map(&self) -> Map<VoteHash, Block<V>> {
        self.blocks@
    }

    pub open(crate) spec fn evidence_seq(&self) -> Seq<Option<Evidence<V>>> {
        self.evidence@
    }

    pub open(crate) spec fn panorama_seq(&self) -> Seq<Observation> {
        self.panorama@
    }

    pub open(crate) spec fn weight_seq(&self) -> Seq<Weight> {
        self.weights@
    }

    pub open(crate) spec fn num_validators(&self) -> nat {
        self.weights@.len()
    }

    /// The state's invariant.
    pub closed spec fn wf(&self) -> bool {
        let n = self.weights@.len();
        &&& n <= u32::MAX
        &&& total_weight(self.weights@) <= u64::MAX
        &&& self.panorama@.len() == n
        &&& self.evidence@.len() == n
        &&& votes_wf(self.votes@, n)
        &&& forall|h: VoteHash| #[trigger]
            self.votes@.contains_key(h) ==> self.blocks@.contains_key(self.votes@[h].block)
        &&& self.blocks_wf()
        &&& forall|h: VoteHash| #[trigger] self.blocks@.contains_key(h) ==> self.votes@.contains_key(h)
        &&& forall|i: int| 0 <= i < n ==> slot_wf(self.votes@, #[trigger] self.panorama@[i], i)
        &&& forall|i: int|
            0 <= i < n ==> (#[trigger] self.evidence@[i] is Some <==> self.panorama@[i] is Faulty)
    }

    /// Each block is the child of a known block, or has height 0.
    pub open(crate) spec fn blocks_wf(&self) -> bool {
        forall|h: VoteHash| #[trigger] self.blocks@.contains_key(h) ==> block_wf(self.blocks@, h)
    }

    /// Whether `pan` could be the panorama of a new vote: it has an entry for each validator,
    /// names known votes at their senders' positions, has evidence for each faulty entry, and
    /// sees everything each of its votes saw.
    pub open(crate) spec fn panorama_valid(&self, pan: Seq<Observation>) -> bool {
        &&& pan.len() == self.weights@.len()
        &&& forall|i: int| 0 <= i < pan.len() ==> self.slot_valid(pan, i)
    }

    #[verifier::opaque]
    pub open(crate) spec fn slot_valid(&self, pan: Seq<Observation>, i: int) -> bool {
        match pan[i] {
            Observation::Unseen => true,
            Observation::Faulty => self.evidence@[i] is Some,
            Observation::Correct(h) => {
                &&& self.votes@.contains_key(h)
                &&& self.votes@[h].sender.0 == i
                &&& panorama_geq(self.votes@, pan, self.votes@[h].panorama@)
            },
        }
    }

    /// The outcome of validating `w` against this state.
    pub open(crate) spec fn validate_spec(&self, w: &WireVote<V>) -> Result<(), VoteError> {
        if (w.sender.0 as nat) >= self.weights@.len() || !self.panorama_valid(w.panorama@) || (
        w.values is None && first_correct(w.panorama@, 0) is None) {
            Err(VoteError::Panorama)
        } else {
            match w.panorama@[w.sender.0 as int] {
                Observation::Faulty => Err(VoteError::Panorama),
                Observation::Unseen => if w.seq_number == 0 {
                    Ok(())
                } else {
                    Err(VoteError::SequenceNumber)
                },
                Observation::Correct(h) => if self.votes@[h].seq_number + 1 == w.seq_number {
                    Ok(())
                } else {
                    Err(VoteError::SequenceNumber)
                },
            }
        }
    }

    /// The dependency that `obs`, at position `i`, is missing in this state.
    pub open(crate) spec fn missing_obs_dep_spec(&self, i: int, obs: Observation) -> Option<
        Dependency,
    > {
        match obs {
            Observation::Faulty => if 0 <= i < self.evidence@.len() && self.evidence@[i] is Some {
                None
            } else {
                Some(Dependency::Evidence(ValidatorIndex(i as u32)))
            },
            Observation::Correct(h) => if self.votes@.contains_key(h) {
                None
            } else {
                Some(Dependency::Vote(h))
            },
            Observation::Unseen => None,
        }
    }
}

impl<V> State<V> {
    /// Whether `later` extends this state: the same validators, every vote, block and fault
    /// kept.
    pub open(crate) spec fn grows_into(&self, later: State<V>) -> bool {
        &&& later.weights@ == self.weights@
        &&& forall|h: VoteHash| #[trigger]
            self.votes@.contains_key(h) ==> later.votes@.contains_key(h) && later.votes@[h]
                == self.votes@[h]
        &&& forall|h: VoteHash| #[trigger]
            self.blocks@.contains_key(h) ==> later.blocks@.contains_key(h) && later.blocks@[h]
                == self.blocks@[h]
        &&& forall|i: int|
            0 <= i < self.weights@.len() && #[trigger] self.panorama@[i] is Faulty
                ==> later.panorama@[i] is Faulty
    }

    /// Creates a state for validators with the given weights, nothing observed yet.
    pub fn new(weights: &[Weight]) -> (r: State<V>)
        requires
            weights@.len() <= u32::MAX,
            total_weight(weights@) <= u64::MAX,
        ensures
            r.wf(),
            r.weight_seq() == weights@,
            r.votes_map().is_empty(),
            r.blocks_map().is_empty(),
            r.panorama_seq() == Seq::new(weights@.len(), |i: int| Observation::Unseen),
            forall|i: int| 0 <= i < weights@.len() ==> #[trigger] r.evidence_seq()[i] is None,
    {
        let n = weights.len();
        let mut ws: Vec<Weight> = Vec::new();
        let mut evidence: Vec<Option<Evidence<V>>> = Vec::new();
        let mut i: usize = 0;
        while i < n
            invariant
                n == weights@.len(),
                i <= n,
                ws@ == weights@.take(i as int),
                evidence@.len() == i,
                forall|j: int| 0 <= j < i ==> #[trigger] evidence@[j] is None,
            decreases n - i,
        {
            ws.push(weights[i]);
            evidence.push(None);
            i = i + 1;
            assert(ws@ =~= weights@.take(i as int));
        }
        assert(weights@.take(n as int) =~= weights@);
        let panorama = Panorama::new(n);
        State { votes: HashMap::new(), blocks: HashMap::new(), evidence, panorama, weights: ws }
    }

    /// Returns evidence against validator nr. `idx`, if present.
    pub fn opt_evidence(&self, idx: ValidatorIndex) -> (r: Option<&Evidence<V>>)
        requires
            self.wf(),
        ensures
            r == (if (idx.0 as int) < self.evidence_seq().len() {
                match self.evidence_seq()[idx.0 as int] {
                    Some(e) => Some(&e),
                    None => None,
                }
            } else {
                None
            }),
    {
        if (idx.0 as usize) < self.evidence.len() {
            match &self.evidence[idx.0 as usize] {
                Some(e) => Some(e),
                None => None,
            }
        } else {
            None
        }
    }

    /// Returns whether evidence against validator nr. `idx` is known.
    pub fn has_evidence(&self, idx: ValidatorIndex) -> (r: bool)
        requires
            self.wf(),
        ensures
            r == ((idx.0 as int) < self.evidence_seq().len() && self.evidence_seq()[idx.0 as int] is Some),
    {
        (idx.0 as usize) < self.evidence.len() && self.evidence[idx.0 as usize].is_some()
    }

    /// Returns the vote with the given hash, if present.
    pub fn opt_vote(&self, hash: &VoteHash) -> (r: Option<&Vote>)
        ensures
            match r {
                Some(v) => self.votes_map().contains_key(*hash) && *v == self.votes_map()[*hash],
                None => !self.votes_map().contains_key(*hash),
            },
    {
        self.votes.get(hash)
    }

    /// Returns whether the vote with the given hash is known.
    pub fn has_vote(&self, hash: &VoteHash) -> (r: bool)
        ensures
            r == self.votes_map().contains_key(*hash),
    {
        self.votes.contains_key(hash)
    }

    /// Returns the vote with the given hash, which must be known.
    pub fn vote(&self, hash: &VoteHash) -> (r: &Vote)
        requires
            self.votes_map().contains_key(*hash),
        ensures
            *r == self.votes_map()[*hash],
    {
        self.votes.get(hash).unwrap()
    }

    /// Returns the block introduced by the vote with the given hash, if present.
    pub fn opt_block(&self, hash: &VoteHash) -> (r: Option<&Block<V>>)
        ensures
            match r {
                Some(b) => self.blocks_map().contains_key(*hash) && *b == self.blocks_map()[*hash],
                None => !self.blocks_map().contains_key(*hash),
            },
    {
        self.blocks.get(hash)
    }

    /// Returns the block introduced by the vote with the given hash, which must be known.
    pub fn block(&self, hash: &VoteHash) -> (r: &Block<V>)
        requires
            self.blocks_map().contains_key(*hash),
        ensures
            *r == self.blocks_map()[*hash],
    {
        self.blocks.get(hash).unwrap()
    }

    /// The state's full panorama.
    pub fn panorama(&self) -> (r: &Panorama)
        ensures
            r@ == self.panorama_seq(),
    {
        &self.panorama
    }

    /// The validators' weights, by index.
    pub fn weights(&self) -> (r: &[Weight])
        ensures
            r@ == self.weight_seq(),
    {
        self.weights.as_slice()
    }

    /// The weight of validator `idx`.
    pub fn weight(&self, idx: ValidatorIndex) -> (r: Weight)
        requires
            (idx.0 as int) < self.weight_seq().len(),
        ensures
            r == self.weight_seq()[idx.0 as int],
    {
        self.weights[idx.0 as usize]
    }

    /// Returns the hash of the vote with the given sequence number in the swimlane ending in
    /// `hash`.
    pub(crate) fn find_in_swimlane(&self, hash: VoteHash, seq_number: u64) -> (r: VoteHash)
        requires
            self.wf(),
            self.votes_map().contains_key(hash),
            seq_number <= self.votes_map()[hash].seq_number,
        ensures
            swimlane_at(self.votes_map(), hash, seq_number) == Some(r),
    {
        let ghost votes = self.votes@;
        let ghost n = self.weights@.len();
        let mut h = hash;
        let mut vote = self.vote(&h);
        while vote.seq_number != seq_number
            invariant
                self.wf(),
                votes == self.votes@,
                n == self.weights@.len(),
                votes.contains_key(h),
                *vote == votes[h],
                seq_number <= votes[h].seq_number,
                swimlane_at(votes, hash, seq_number) == swimlane_at(votes, h, seq_number),
            decreases votes[h].seq_number,
        {
            assert(vote_wf(votes, h, n));
            match vote.panorama.get(vote.sender) {
                Observation::Correct(p) => {
                    h = p;
                    vote = self.vote(&h);
                },
                _ => {
                    assert(false);
                    return h;
                },
            }
        }
        h
    }

    /// Returns whether `b` is `a` or an earlier vote in `a`'s swimlane.
    pub(crate) fn sees_in_swimlane(&self, a: VoteHash, b: VoteHash) -> (r: bool)
        requires
            self.wf(),
        ensures
            r == in_swimlane(self.votes_map(), a, b),
    {
        match (self.votes.get(&a), self.votes.get(&b)) {
            (Some(va), Some(vb)) => {
                if va.seq_number < vb.seq_number {
                    false
                } else {
                    self.find_in_swimlane(a, vb.seq_number) == b
                }
            },
            _ => false,
        }
    }

    /// Returns whether `obs_l` can come later in time than `obs_r`.
    pub(crate) fn obs_geq(&self, obs_l: Observation, obs_r: Observation) -> (r: bool)
        requires
            self.wf(),
        ensures
            r == obs_geq(self.votes_map(), obs_l, obs_r),
    {
        match (obs_l, obs_r) {
            (Observation::Faulty, _) => true,
            (_, Observation::Unseen) => true,
            (Observation::Correct(h0), Observation::Correct(h1)) => self.sees_in_swimlane(h0, h1),
            _ => false,
        }
    }

    /// Returns whether `pan_l` can possibly come later in time than `pan_r`, i.e. it can see
    /// every honest message and every fault seen by `pan_r`.
    pub(crate) fn panorama_geq(&self, pan_l: &Panorama, pan_r: &Panorama) -> (r: bool)
        requires
            self.wf(),
        ensures
            r == panorama_geq(self.votes_map(), pan_l@, pan_r@),
    {
        if pan_l.len() != pan_r.len() {
            return false;
        }
        let mut j: usize = 0;
        while j < pan_l.len()
            invariant
                self.wf(),
                pan_l@.len() == pan_r@.len(),
                j <= pan_l@.len(),
                forall|k: int| 0 <= k < j ==> obs_geq(self.votes_map(), #[trigger] pan_l@[k], pan_r@[k]),
            decreases pan_l@.len() - j,
        {
            if !self.obs_geq(pan_l.0[j], pan_r.0[j]) {
                return false;
            }
            j = j + 1;
        }
        true
    }

    /// Returns whether `pan` is valid, i.e. it contains the latest votes of some substate of
    /// `self`.
    pub(crate) fn is_panorama_valid(&self, pan: &Panorama) -> (r: bool)
        requires
            self.wf(),
        ensures
            r == self.panorama_valid(pan@),
    {
        reveal(State::panorama_valid);
        reveal(State::slot_valid);
        if pan.len() != self.weights.len() {
            return false;
        }
        let mut i: usize = 0;
        while i < pan.len()
            invariant
                self.wf(),
                pan@.len() == self.weight_seq().len(),
                i <= pan@.len(),
                forall|k: int| 0 <= k < i ==> self.slot_valid(pan@, k),
            decreases pan@.len() - i,
        {
            reveal(State::slot_valid);
            let ok = match pan.0[i] {
                Observation::Unseen => true,
                Observation::Faulty => self.evidence[i].is_some(),
                Observation::Correct(h) => match self.votes.get(&h) {
                    Some(vote) => vote.sender.0 as usize == i && self.panorama_geq(pan, &vote.panorama),
                    None => false,
                },
            };
            if !ok {
                assert(!self.slot_valid(pan@, i as int));
                return false;
            }
            i = i + 1;
        }
        true
    }

    /// The weight of the validators whose entry of `pan` supports block `c` of height `h`.
    fn score(&self, pan: &Panorama, c: VoteHash, h: u64) -> (r: u64)
        requires
            self.wf(),
            pan@.len() == self.weight_seq().len(),
            known_votes(*self, pan@),
        ensures
            r == score(*self, pan@, c, h),
    {
        reveal(score);
        proof {
            lemma_wf_facts(*self);
        }
        let mut sum: u64 = 0;
        let mut j: usize = 0;
        while j < pan.len()
            invariant
                self.wf(),
                pan@.len() == self.weight_seq().len(),
                known_votes(*self, pan@),
                total_weight(self.weight_seq()) <= u64::MAX,
                j <= pan@.len(),
                sum == score_upto(*self, pan@, c, h, j as int),
                sum <= weight_upto(self.weight_seq(), j as int),
            decreases pan@.len() - j,
        {
            proof {
                lemma_weight_bounds(self.weight_seq(), self.panorama_seq(), j as int + 1);
            }
            if let Observation::Correct(v) = pan.0[j] {
                if self.find_ancestor(self.vote(&v).block, h) == Some(c) {
                    sum = sum + self.weights[j].0;
                }
            }
            j = j + 1;
        }
        sum
    }

    /// The candidate of entry `i` of `pan` below `cur` at height `h`.
    fn candidate_of(&self, pan: &Panorama, i: usize, cur: Option<VoteHash>, h: u64) -> (r: Option<VoteHash>)
        requires
            self.wf(),
            i < pan@.len(),
            known_votes(*self, pan@),
        ensures
            r == candidate_of(*self, pan@, i as int, cur, h),
            r matches Some(c) ==> self.blocks_map().contains_key(c),
    {
        reveal(candidate_of);
        match pan.0[i] {
            Observation::Correct(v) => match self.find_ancestor(self.vote(&v).block, h) {
                Some(c) => if self.block(&c).parent == cur {
                    Some(c)
                } else {
                    None
                },
                None => None,
            },
            _ => None,
        }
    }

    /// The best candidate below `cur` at height `h`.
    #[verifier::rlimit(50)]
    fn best_candidate(&self, pan: &Panorama, cur: Option<VoteHash>, h: u64) -> (r: Option<VoteHash>)
        requires
            self.wf(),
            pan@.len() == self.weight_seq().len(),
            known_votes(*self, pan@),
        ensures
            r == best_upto(*self, pan@, cur, h, self.weight_seq().len() as int),
            r matches Some(c) ==> self.blocks_map().contains_key(c),
    {
        let mut best: Option<VoteHash> = None;
        let mut best_score: u64 = 0;
        let mut i: usize = 0;
        while i < pan.len()
            invariant
                self.wf(),
                pan@.len() == self.weight_seq().len(),
                known_votes(*self, pan@),
                i <= pan@.len(),
                best == best_upto(*self, pan@, cur, h, i as int),
                best matches Some(b) ==> best_score == score(*self, pan@, b, h) && self.blocks_map().contains_key(b),
            decreases pan@.len() - i,
        {
            let ghost prev = best;
            let cand = self.candidate_of(pan, i, cur, h);
            if let Some(c) = cand {
                let sc = self.score(pan, c, h);
                match best {
                    None => {
                        best = Some(c);
                        best_score = sc;
                    },
                    Some(b) => if sc > best_score || (sc == best_score && c < b) {
                        best = Some(c);
                        best_score = sc;
                    },
                }
            }
            assert(best == pick_better(*self, pan@, h, prev, cand));
            i = i + 1;
        }
        best
    }

    /// The fork choice of `pan`: the tip of the chain that, from the height-0 blocks upwards,
    /// always continues with the child that the greatest weight of validators votes for.
    pub(crate) fn fork_choice(&self, pan: &Panorama) -> (r: Option<VoteHash>)
        requires
            self.wf(),
            pan@.len() == self.weight_seq().len(),
            known_votes(*self, pan@),
        ensures
            r == fork_choice_of(*self, pan@),
            r matches Some(b) ==> self.blocks_map().contains_key(b),
    {
        let nb = self.blocks.len();
        let mut cur: Option<VoteHash> = None;
        let mut h: u64 = 0;
        loop
            invariant
                self.wf(),
                nb == self.blocks_map().len(),
                pan@.len() == self.weight_seq().len(),
                known_votes(*self, pan@),
                fork_choice_of(*self, pan@) == fork_choice_from(*self, pan@, cur, h),
                cur matches Some(b) ==> self.blocks_map().contains_key(b),
                h as int <= nb,
            decreases nb - h,
        {
            if h as usize >= nb || h == u64::MAX {
                return cur;
            }
            match self.best_candidate(pan, cur, h) {
                None => return cur,
                Some(c) => {
                    cur = Some(c);
                    h = h + 1;
                },
            }
        }
    }

    /// Returns the missing dependency if `obs` is referring to a vertex we don't know yet.
    fn missing_obs_dep(&self, idx: ValidatorIndex, obs: Observation) -> (r: Option<Dependency>)
        requires
            self.wf(),
        ensures
            r == self.missing_obs_dep_spec(idx.0 as int, obs),
    {
        match obs {
            Observation::Faulty => if self.has_evidence(idx) {
                None
            } else {
                Some(Dependency::Evidence(idx))
            },
            Observation::Correct(hash) => if self.has_vote(&hash) {
                None
            } else {
                Some(Dependency::Vote(hash))
            },
            Observation::Unseen => None,
        }
    }

    /// Returns the first missing dependency of the panorama, or `None` if all are satisfied.
    pub fn missing_dependency(&self, panorama: &Panorama) -> (r: Option<Dependency>)
        requires
            self.wf(),
            panorama@.len() <= u32::MAX,
        ensures
            match r {
                None => forall|i: int|
                    0 <= i < panorama@.len() ==> self.missing_obs_dep_spec(i, #[trigger] panorama@[i]) is None,
                Some(d) => exists|i: int|
                    0 <= i < panorama@.len() && self.missing_obs_dep_spec(i, #[trigger] panorama@[i])
                        == Some(d) && forall|k: int|
                        0 <= k < i ==> self.missing_obs_dep_spec(k, #[trigger] panorama@[k]) is None,
            },
    {
        let mut i: usize = 0;
        while i < panorama.len()
            invariant
                self.wf(),
                panorama@.len() <= u32::MAX,
                i <= panorama@.len(),
                forall|k: int| 0 <= k < i ==> self.missing_obs_dep_spec(k, #[trigger] panorama@[k]) is None,
            decreases panorama@.len() - i,
        {
            let dep = self.missing_obs_dep(ValidatorIndex(i as u32), panorama.0[i]);
            if dep.is_some() {
                assert(self.missing_obs_dep_spec(i as int, panorama@[i as int]) == dep);
                return dep;
            }
            i = i + 1;
        }
        None
    }
}

impl<V: Clone> State<V> {
    /// `w` is the wire form of the stored vote `hash`, with a clone of its block's values.
    pub open(crate) spec fn is_wire_vote_of(&self, hash: VoteHash, w: WireVote<V>) -> bool {
        &&& self.votes@.contains_key(hash)
        &&& w.hash == hash
        &&& w.panorama@ == self.votes@[hash].panorama@
        &&& w.sender == self.votes@[hash].sender
        &&& w.seq_number == self.votes@[hash].seq_number
        &&& if self.blocks@.contains_key(hash) {
            w.values matches Some(vs) && clones(self.blocks@[hash].values@, vs@)
        } else {
            w.values is None
        }
    }
}

impl<V: Clone> State<V> {
    /// `ev` is evidence that `w`'s sender equivocated: the stored vote of that sender with `w`'s
    /// sequence number, and a copy of `w`.
    pub open(crate) spec fn equivocation_evidence(&self, w: &WireVote<V>, ev: Option<Evidence<V>>) -> bool {
        match ev {
            Some(Evidence::Equivocation(w0, w1)) => {
                &&& self.is_wire_vote_of(w0.hash, w0)
                &&& w0.sender == w.sender
                &&& w0.seq_number == w.seq_number
                &&& w1.hash == w.hash
                &&& w1.panorama@ == w.panorama@
                &&& w1.sender == w.sender
                &&& w1.seq_number == w.seq_number
                &&& values_cloned(w.values, w1.values)
            },
            None => false,
        }
    }

    /// Whether `w` is the stored vote with its hash: same sender, sequence number, panorama, and
    /// a block exactly if `w` carries values.
    pub open(crate) spec fn is_stored(&self, w: &WireVote<V>) -> bool {
        &&& self.votes@.contains_key(w.hash)
        &&& self.votes@[w.hash].sender == w.sender
        &&& self.votes@[w.hash].seq_number == w.seq_number
        &&& self.votes@[w.hash].panorama@ == w.panorama@
        &&& (self.blocks@.contains_key(w.hash) <==> w.values is Some)
    }
}

impl<V> State<V> {
    /// The observation of `w`'s sender after adding `w`: it stays faulty, becomes `w` if `w`
    /// extends the sender's latest vote, and becomes faulty otherwise.
    pub open(crate) spec fn new_obs_spec(&self, w: &WireVote<V>) -> Observation {
        let s = w.sender.0 as int;
        if self.panorama@[s] is Faulty {
            Observation::Faulty
        } else if self.panorama@[s] == w.panorama@[s] {
            Observation::Correct(w.hash)
        } else {
            Observation::Faulty
        }
    }

    /// Whether adding `w` reveals its sender as an equivocator.
    pub open(crate) spec fn reveals_equivocation(&self, w: &WireVote<V>) -> bool {
        let s = w.sender.0 as int;
        self.panorama@[s] is Correct && self.panorama@[s] != w.panorama@[s]
    }

    /// The vote stored for `w`.
    pub open(crate) spec fn new_vote_spec(&self, w: &WireVote<V>) -> Vote {
        Vote {
            panorama: w.panorama,
            seq_number: w.seq_number,
            sender: w.sender,
            block: if w.values is Some {
                w.hash
            } else {
                fork_choice_of(*self, w.panorama@)->0
            },
        }
    }

    /// The blocks after adding `w`: a new block if `w` carries values.
    pub open(crate) spec fn new_blocks_spec(&self, w: WireVote<V>) -> Map<VoteHash, Block<V>> {
        let parent = fork_choice_of(*self, w.panorama@);
        match w.values {
            Some(vs) => self.blocks@.insert(
                w.hash,
                Block {
                    parent,
                    height: match parent {
                        Some(p) => (self.blocks@[p].height + 1) as u64,
                        None => 0,
                    },
                    values: vs,
                },
            ),
            None => self.blocks@,
        }
    }
}

impl<V: Clone> State<V> {
    /// Returns the wire form of the vote with the given hash, if it is known.
    pub fn wire_vote(&self, hash: VoteHash) -> (r: Option<WireVote<V>>)
        requires
            self.wf(),
        ensures
            match r {
                Some(w) => self.is_wire_vote_of(hash, w),
                None => !self.votes_map().contains_key(hash),
            },
    {
        let vote = match self.votes.get(&hash) {
            Some(v) => v,
            None => return None,
        };
        let values = match self.blocks.get(&hash) {
            Some(block) => Some(block.values.clone()),
            None => None,
        };
        Some(
            WireVote {
                hash,
                panorama: vote.panorama.copy(),
                sender: vote.sender,
                values,
                seq_number: vote.seq_number,
            },
        )
    }

    /// Returns an error if `wvote` is invalid.
    fn validate_vote(&self, wvote: &WireVote<V>) -> (r: Result<(), VoteError>)
        requires
            self.wf(),
        ensures
            r == self.validate_spec(wvote),
    {
        let sender = wvote.sender;
        if (sender.0 as usize) >= self.weights.len() || !self.is_panorama_valid(&wvote.panorama) {
            return Err(VoteError::Panorama);
        }
        proof {
            lemma_fork_choice_props(*self, wvote.panorama@);
        }
        if wvote.values.is_none() && self.fork_choice(&wvote.panorama).is_none() {
            return Err(VoteError::Panorama);
        }
        let expected_seq_number = match wvote.panorama.get(sender) {
            Observation::Faulty => return Err(VoteError::Panorama),
            Observation::Unseen => 0,
            Observation::Correct(hash) => {
                proof {
                    lemma_valid_slot(*self, wvote.panorama@, sender.0 as int);
                }
                let prev = self.vote(&hash).seq_number;
                if prev == u64::MAX {
                    return Err(VoteError::SequenceNumber);
                }
                prev + 1
            },
        };
        if wvote.seq_number != expected_seq_number {
            return Err(VoteError::SequenceNumber);
        }
        Ok(())
    }

    /// Updates `self.panorama` with an incoming valid vote.
    ///
    /// If the new vote extends its sender's latest vote, the sender's entry becomes that vote.
    /// If it represents an equivocation, the entry becomes `Faulty` and evidence is recorded.
    fn update_panorama(&mut self, wvote: &WireVote<V>)
        requires
            old(self).wf(),
            old(self).validate_spec(wvote) is Ok,
            !old(self).votes_map().contains_key(wvote.hash),
        ensures
            final(self).votes_map() == old(self).votes_map(),
            final(self).blocks_map() == old(self).blocks_map(),
            final(self).weight_seq() == old(self).weight_seq(),
            final(self).panorama_seq() == old(self).panorama_seq().update(
                wvote.sender.0 as int,
                old(self).new_obs_spec(wvote),
            ),
            final(self).evidence_seq().len() == old(self).evidence_seq().len(),
            forall|j: int|
                0 <= j < old(self).evidence_seq().len() && j != wvote.sender.0 ==> #[trigger] final(self).evidence_seq()[j] == old(self).evidence_seq()[j],
            !old(self).reveals_equivocation(wvote) ==> final(self).evidence_seq()[wvote.sender.0 as int]
                == old(self).evidence_seq()[wvote.sender.0 as int],
            old(self).reveals_equivocation(wvote) ==> old(self).equivocation_evidence(
                wvote,
                final(self).evidence_seq()[wvote.sender.0 as int],
            ),
    {
        let ghost votes = self.votes@;
        let ghost n = self.weights@.len();
        let sender = wvote.sender;
        let s = sender.0 as usize;
        let obs0 = self.panorama.get(sender);
        let obs1 = wvote.panorama.get(sender);
        proof {
            lemma_valid_slot(*self, wvote.panorama@, s as int);
        }
        assert(slot_wf(votes, self.panorama@[s as int], s as int));
        let new_obs = match obs0 {
            Observation::Faulty => Observation::Faulty,
            _ => if obs0 == obs1 {
                Observation::Correct(wvote.hash)
            } else {
                match obs0 {
                    Observation::Correct(hash0) => {
                        proof {
                            if let Observation::Correct(p) = obs1 {
                                assert(votes.contains_key(p));
                                lemma_swimlane_at_found(votes, n, hash0, votes[p].seq_number);
                            }
                        }
                        let prev0 = self.find_in_swimlane(hash0, wvote.seq_number);
                        proof {
                            lemma_swimlane_at_found(votes, n, hash0, wvote.seq_number);
                            assert(slot_wf(votes, self.panorama@[s as int], s as int));
                        }
                        let wvote0 = self.wire_vote(prev0).unwrap();
                        let evidence = Evidence::Equivocation(wvote0, wvote.copy());
                        self.evidence.set(s, Some(evidence));
                    },
                    _ => {
                        proof {
                            if let Observation::Correct(p) = obs1 {
                                assert(votes.contains_key(p));
                            }
                        }
                        assert(false);
                    },
                }
                Observation::Faulty
            },
        };
        self.panorama.update(sender, new_obs);
    }

    /// Adds the vote to the protocol state, or returns an error if it is invalid.
    ///
    /// A vote whose hash is already known is not added again; a different vote under a known
    /// hash is refused. A valid vote that conflicts with an earlier vote by its sender marks the
    /// sender as faulty and records evidence.
    #[verifier::rlimit(40)]
    pub fn add_vote(&mut self, wvote: WireVote<V>) -> (r: Result<(), AddVoteError<V>>)
        requires
            old(self).wf(),
        ensures
            final(self).wf(),
            final(self).weight_seq() == old(self).weight_seq(),
            old(self).grows_into(*final(self)),
            (r is Ok) <==> (old(self).validate_spec(&wvote) is Ok && (!old(self).votes_map().contains_key(
                wvote.hash,
            ) || old(self).is_stored(&wvote))),
            match r {
                Err(e) => {
                    &&& e.wvote == wvote
                    &&& *final(self) == *old(self)
                    &&& (old(self).validate_spec(&wvote) is Err ==> old(self).validate_spec(&wvote)
                        == Err::<(), VoteError>(e.cause))
                    &&& (old(self).validate_spec(&wvote) is Ok ==> e.cause == VoteError::Hash)
                },
                Ok(_) => old(self).votes_map().contains_key(wvote.hash) ==> *final(self) == *old(self),
            },
            r is Ok && !old(self).votes_map().contains_key(wvote.hash) ==> {
                &&& final(self).votes_map() == old(self).votes_map().insert(
                    wvote.hash,
                    old(self).new_vote_spec(&wvote),
                )
                &&& final(self).blocks_map() == old(self).new_blocks_spec(wvote)
                &&& final(self).panorama_seq() == old(self).panorama_seq().update(
                    wvote.sender.0 as int,
                    old(self).new_obs_spec(&wvote),
                )
                &&& forall|j: int|
                    0 <= j < old(self).num_validators() && j != wvote.sender.0 ==> #[trigger] final(self).evidence_seq()[j] == old(self).evidence_seq()[j]
                &&& !old(self).reveals_equivocation(&wvote) ==> final(self).evidence_seq()[wvote.sender.0 as int] == old(self).evidence_seq()[wvote.sender.0 as int]
                &&& old(self).reveals_equivocation(&wvote) ==> old(self).equivocation_evidence(
                    &wvote,
                    final(self).evidence_seq()[wvote.sender.0 as int],
                )
            },
            // A second vote with the same sender and sequence number as a known one is proof of
            // equivocation: the sender is faulty, and unless evidence was already held, the new
            // evidence consists of the known vote and the new one.
            r is Ok && !old(self).votes_map().contains_key(wvote.hash) && (exists|h: VoteHash|
                #[trigger] old(self).votes_map().contains_key(h) && old(self).votes_map()[h].sender
                    == wvote.sender && old(self).votes_map()[h].seq_number == wvote.seq_number)
                ==> final(self).panorama_seq()[wvote.sender.0 as int] is Faulty && final(self).evidence_seq()[wvote.sender.0 as int] is Some
                && (old(self).evidence_seq()[wvote.sender.0 as int] is None ==> old(self).equivocation_evidence(
                &wvote,
                final(self).evidence_seq()[wvote.sender.0 as int],
            )),
    {
        if let Err(err) = self.validate_vote(&wvote) {
            return Err(wvote.with_error(err));
        }
        match self.votes.get(&wvote.hash) {
            Some(stored) => {
                let same = stored.sender == wvote.sender && stored.seq_number == wvote.seq_number
                    && same_panorama(&stored.panorama, &wvote.panorama) && self.blocks.contains_key(
                    &wvote.hash,
                ) == wvote.values.is_some();
                if same {
                    return Ok(());
                } else {
                    return Err(wvote.with_error(VoteError::Hash));
                }
            },
            None => {},
        }
        let ghost old_state = *self;
        // The number of blocks bounds their heights, so a new block's height fits.
        let _ = self.blocks.len();
        let ghost nv = self.new_vote_spec(&wvote);
        let ghost nblocks = self.new_blocks_spec(wvote);
        proof {
            lemma_fork_choice_props(*self, wvote.panorama@);
        }
        let fork_choice = self.fork_choice(&wvote.panorama);
        self.update_panorama(&wvote);
        let WireVote { hash, panorama, sender, values, seq_number } = wvote;
        let block = match values {
            Some(values) => {
                let block = Block::new(fork_choice, values, self);
                self.blocks.insert(hash, block);
                hash
            },
            None => fork_choice.unwrap(),
        };
        self.votes.insert(hash, Vote { panorama, seq_number, sender, block });
        proof {
            lemma_add_vote_wf(old_state, *self, wvote);
        }
        Ok(())
    }

    /// Records evidence against a validator, who is then observed as faulty.
    pub fn add_evidence(&mut self, evidence: Evidence<V>)
        requires
            old(self).wf(),
            (evidence.perpetrator_spec().0 as int) < old(self).num_validators(),
        ensures
            final(self).wf(),
            old(self).grows_into(*final(self)),
            final(self).votes_map() == old(self).votes_map(),
            final(self).blocks_map() == old(self).blocks_map(),
            final(self).weight_seq() == old(self).weight_seq(),
            final(self).evidence_seq() == old(self).evidence_seq().update(
                evidence.perpetrator_spec().0 as int,
                Some(evidence),
            ),
            final(self).panorama_seq() == old(self).panorama_seq().update(
                evidence.perpetrator_spec().0 as int,
                Observation::Faulty,
            ),
    {
        let idx = evidence.perpetrator();
        self.evidence.set(idx.0 as usize, Some(evidence));
        self.panorama.update(idx, Observation::Faulty);
        assert forall|i: int| 0 <= i < self.weights@.len() implies slot_wf(self.votes@, #[trigger] self.panorama@[i], i) by {
            if i != idx.0 {
                assert(slot_wf(self.votes@, old(self).panorama@[i], i));
            }
        }
    }
}

/// The facts about a valid vote `w` under a new hash that the invariant's preservation rests on.
pub(crate) open spec fn add_vote_step<V: Clone>(s0: State<V>, s1: State<V>, w: WireVote<V>) -> bool {
    &&& s0.wf()
    &&& s0.validate_spec(&w) is Ok
    &&& !s0.votes@.contains_key(w.hash)
    &&& s1.weights@ == s0.weights@
    &&& s1.votes@ == s0.votes@.insert(w.hash, s0.new_vote_spec(&w))
    &&& s1.blocks@ == s0.new_blocks_spec(w)
    &&& s1.panorama@ == s0.panorama@.update(w.sender.0 as int, s0.new_obs_spec(&w))
    &&& s1.evidence@.len() == s0.evidence@.len()
    &&& forall|j: int|
        0 <= j < s0.evidence@.len() && j != w.sender.0 ==> #[trigger] s1.evidence@[j]
            == s0.evidence@[j]
    &&& !s0.reveals_equivocation(&w) ==> s1.evidence@[w.sender.0 as int] == s0.evidence@[w.sender.0 as int]
    &&& s0.reveals_equivocation(&w) ==> s1.evidence@[w.sender.0 as int] is Some
    &&& s0.blocks@.len() <= u64::MAX
}

/// The entries of a valid panorama name known votes at their senders' positions, and faulty
/// entries have evidence.
proof fn lemma_valid_slot<V>(s0: State<V>, pan: Seq<Observation>, k: int)
    requires
        s0.panorama_valid(pan),
        0 <= k < pan.len(),
    ensures
        pan.len() == s0.weights@.len(),
        match pan[k] {
            Observation::Unseen => true,
            Observation::Faulty => s0.evidence@[k] is Some,
            Observation::Correct(h) => s0.votes@.contains_key(h) && s0.votes@[h].sender.0 == k,
        },
{
    reveal(State::panorama_valid);
    reveal(State::slot_valid);
    assert(s0.slot_valid(pan, k));
}

/// The fork choice of a valid panorama is a known block, and there is one exactly if the
/// panorama has a correct entry.
proof fn lemma_fork_choice_props<V>(s0: State<V>, pan: Seq<Observation>)
    requires
        s0.wf(),
        s0.panorama_valid(pan),
    ensures
        known_votes(s0, pan),
        pan.len() == s0.weight_seq().len(),
        fork_choice_of(s0, pan) matches Some(b) ==> s0.blocks@.contains_key(b),
        fork_choice_of(s0, pan) is Some <==> first_correct(pan, 0) is Some,
{
    assert forall|i: int| 0 <= i < pan.len() implies (#[trigger] pan[i] matches Observation::Correct(h)
        ==> s0.votes_map().contains_key(h)) by {
        lemma_valid_slot(s0, pan, i);
    }
    lemma_fork_choice_from_known(s0, pan, None, 0);
    lemma_first_correct(pan, 0);
    lemma_wf_facts(s0);
    if let Some(v) = first_correct(pan, 0) {
        let k = choose|k: int| 0 <= k < pan.len() && pan[k] == Observation::Correct(v);
        lemma_valid_slot(s0, pan, k);
        let b = s0.votes@[v].block;
        lemma_ancestor_zero(s0, b);
        let c = ancestor_at(s0.blocks@, b, 0)->0;
        lemma_ancestor_height(s0, b, 0);
        assert(block_wf(s0.blocks@, c));
        reveal(candidate_of);
        assert(candidate_of(s0, pan, k, None, 0) == Some(c));
        lemma_best_some(s0, pan, None, 0, s0.weight_seq().len() as int, k);
        assert(s0.blocks@.dom().contains(c));
        assert(s0.blocks@.len() > 0) by {
            vstd::set_lib::lemma_set_empty_equivalency_len(s0.blocks@.dom());
        }
        lemma_fork_choice_from_some(s0, pan, best_upto(s0, pan, None, 0, s0.weight_seq().len() as int), 1);
    } else {
        assert forall|k: int| 0 <= k <= s0.weight_seq().len() implies best_upto(s0, pan, None, 0, k) is None by {
            lemma_best_none(s0, pan, None, 0, k);
        }
    }
}

/// Without correct entries before position `k`, there is no candidate.
proof fn lemma_best_none<V>(s: State<V>, pan: Seq<Observation>, cur: Option<VoteHash>, h: u64, k: int)
    requires
        0 <= k <= pan.len(),
        first_correct(pan, 0) is None,
    ensures
        best_upto(s, pan, cur, h, k) is None,
    decreases k,
{
    if k > 0 {
        lemma_best_none(s, pan, cur, h, k - 1);
        lemma_first_correct_none(pan, 0, k - 1);
        reveal(candidate_of);
    }
}

proof fn lemma_first_correct_none(pan: Seq<Observation>, i: int, k: int)
    requires
        0 <= i <= k < pan.len(),
        first_correct(pan, i) is None,
    ensures
        !(pan[k] is Correct),
    decreases k - i,
{
    if i < k {
        lemma_first_correct_none(pan, i + 1, k);
    }
}

/// A candidate at position `j < k` makes the best one exist.
proof fn lemma_best_some<V>(s: State<V>, pan: Seq<Observation>, cur: Option<VoteHash>, h: u64, k: int, j: int)
    requires
        0 <= j < k,
        candidate_of(s, pan, j, cur, h) is Some,
    ensures
        best_upto(s, pan, cur, h, k) is Some,
    decreases k,
{
    if j < k - 1 {
        lemma_best_some(s, pan, cur, h, k - 1, j);
    }
}

/// From a block, the fork choice stays a block.
proof fn lemma_fork_choice_from_some<V>(s: State<V>, pan: Seq<Observation>, cur: Option<VoteHash>, h: u64)
    requires
        cur is Some,
    ensures
        fork_choice_from(s, pan, cur, h) is Some,
    decreases s.blocks_map().len() - h,
{
    if !(h as int >= s.blocks_map().len() || h == u64::MAX) {
        if let Some(c) = best_upto(s, pan, cur, h, s.weight_seq().len() as int) {
            lemma_fork_choice_from_some(s, pan, Some(c), (h + 1) as u64);
        }
    }
}

/// Candidates are known blocks.
proof fn lemma_best_known<V>(s: State<V>, pan: Seq<Observation>, cur: Option<VoteHash>, h: u64, k: int)
    requires
        s.wf(),
        known_votes(s, pan),
        k <= pan.len(),
    ensures
        best_upto(s, pan, cur, h, k) matches Some(c) ==> s.blocks@.contains_key(c),
    decreases k,
{
    if k > 0 {
        reveal(candidate_of);
        lemma_best_known(s, pan, cur, h, k - 1);
        if let Some(b) = supported(s.votes@, pan, k - 1) {
            lemma_wf_facts(s);
            if ancestor_at(s.blocks@, b, h) is Some {
                lemma_ancestor_height(s, b, h);
            }
        }
    }
}

proof fn lemma_fork_choice_from_known<V>(s: State<V>, pan: Seq<Observation>, cur: Option<VoteHash>, h: u64)
    requires
        s.wf(),
        known_votes(s, pan),
        pan.len() == s.weight_seq().len(),
        cur matches Some(b) ==> s.blocks@.contains_key(b),
    ensures
        fork_choice_from(s, pan, cur, h) matches Some(b) ==> s.blocks@.contains_key(b),
    decreases s.blocks_map().len() - h,
{
    if !(h as int >= s.blocks_map().len() || h == u64::MAX) {
        lemma_best_known(s, pan, cur, h, s.weight_seq().len() as int);
        if let Some(c) = best_upto(s, pan, cur, h, s.weight_seq().len() as int) {
            lemma_fork_choice_from_known(s, pan, Some(c), (h + 1) as u64);
        }
    }
}

/// Every known block has an ancestor of height 0.
proof fn lemma_ancestor_zero<V>(s: State<V>, b: VoteHash)
    requires
        s.wf(),
        s.blocks@.contains_key(b),
    ensures
        ancestor_at(s.blocks@, b, 0) is Some,
    decreases s.blocks@[b].height,
{
    lemma_wf_facts(s);
    assert(block_wf(s.blocks@, b));
    if s.blocks@[b].height != 0 {
        lemma_ancestor_zero(s, s.blocks@[b].parent->0);
    }
}

/// The ancestor found at a height is a known block of that height.
pub proof fn lemma_ancestor_height<V>(state: State<V>, b: VoteHash, h: u64)
    requires
        state.wf(),
        ancestor_at(state.blocks_map(), b, h) is Some,
    ensures
        state.blocks_map().contains_key(ancestor_at(state.blocks_map(), b, h)->0),
        state.blocks_map()[ancestor_at(state.blocks_map(), b, h)->0].height == h,
    decreases state.blocks_map()[b].height,
{
    lemma_wf_facts(state);
    if state.blocks_map()[b].height != h {
        assert(block_wf(state.blocks_map(), b));
        if let Some(p) = state.blocks_map()[b].parent {
            lemma_ancestor_height(state, p, h);
        }
    }
}

proof fn lemma_add_vote_votes_wf<V: Clone>(s0: State<V>, s1: State<V>, w: WireVote<V>)
    requires
        add_vote_step(s0, s1, w),
    ensures
        votes_wf(s1.votes@, s1.weights@.len()),
        forall|h: VoteHash| #[trigger]
            s1.votes@.contains_key(h) ==> s1.blocks@.contains_key(s1.votes@[h].block),
{
    let n = s0.weights@.len();
    let votes0 = s0.votes@;
    let votes1 = s1.votes@;
    let sd = w.sender.0 as int;
    lemma_valid_slot(s0, w.panorama@, sd);
    assert forall|h: VoteHash| #[trigger] votes1.contains_key(h) implies vote_wf(votes1, h, n) by {
        if h == w.hash {
            assert forall|j: int| 0 <= j < n implies entry_wf(
                votes1,
                #[trigger] votes1[h].panorama@[j],
                j,
                sd,
            ) by {
                lemma_valid_slot(s0, w.panorama@, j);
            }
        } else {
            assert(vote_wf(votes0, h, n));
            assert forall|j: int| 0 <= j < n implies entry_wf(
                votes1,
                #[trigger] votes1[h].panorama@[j],
                j,
                votes1[h].sender.0 as int,
            ) by {
                assert(entry_wf(votes0, votes0[h].panorama@[j], j, votes0[h].sender.0 as int));
            }
        }
    }
    lemma_fork_choice_props(s0, w.panorama@);
}

proof fn lemma_add_vote_blocks_wf<V>(
    blocks0: Map<VoteHash, Block<V>>,
    blocks1: Map<VoteHash, Block<V>>,
    votes0: Map<VoteHash, Vote>,
    hash: VoteHash,
    parent: Option<VoteHash>,
    values: Option<Vec<V>>,
)
    requires
        blocks0.dom().finite(),
        blocks0.len() <= u64::MAX,
        forall|h: VoteHash| #[trigger] blocks0.contains_key(h) ==> block_wf(blocks0, h),
        forall|h: VoteHash| #[trigger] blocks0.contains_key(h) ==> votes0.contains_key(h),
        !votes0.contains_key(hash),
        parent matches Some(p) ==> blocks0.contains_key(p),
        blocks1 == match values {
            Some(vs) => blocks0.insert(
                hash,
                Block {
                    parent,
                    height: match parent {
                        Some(p) => (blocks0[p].height + 1) as u64,
                        None => 0,
                    },
                    values: vs,
                },
            ),
            None => blocks0,
        },
    ensures
        forall|h: VoteHash| #[trigger] blocks1.contains_key(h) ==> block_wf(blocks1, h),
        forall|h: VoteHash| #[trigger]
            blocks1.contains_key(h) ==> votes0.contains_key(h) || h == hash,
{
    assert(!blocks0.contains_key(hash));
    if values is Some {
        assert(blocks1.dom() =~= blocks0.dom().insert(hash));
        assert(blocks1.len() == blocks0.len() + 1);
    }
    assert forall|h: VoteHash| #[trigger] blocks1.contains_key(h) implies block_wf(blocks1, h) by {
        if h == hash {
            if let Some(p) = parent {
                assert(block_wf(blocks0, p));
            }
        } else {
            assert(block_wf(blocks0, h));
        }
    }
}

proof fn lemma_add_vote_slots_wf(
    votes0: Map<VoteHash, Vote>,
    pan0: Seq<Observation>,
    pan1: Seq<Observation>,
    n: nat,
    hash: VoteHash,
    nv: Vote,
)
    requires
        votes_wf(votes0, n),
        pan0.len() == n,
        !votes0.contains_key(hash),
        forall|i: int| 0 <= i < n ==> slot_wf(votes0, #[trigger] pan0[i], i),
        (nv.sender.0 as int) < n,
        nv.panorama@.len() == n,
        match nv.panorama@[nv.sender.0 as int] {
            Observation::Unseen => nv.seq_number == 0,
            Observation::Correct(p) => votes0.contains_key(p) && votes0[p].sender == nv.sender
                && votes0[p].seq_number + 1 == nv.seq_number,
            Observation::Faulty => false,
        },
        pan1 == pan0.update(
            nv.sender.0 as int,
            if pan0[nv.sender.0 as int] is Faulty {
                Observation::Faulty
            } else if pan0[nv.sender.0 as int] == nv.panorama@[nv.sender.0 as int] {
                Observation::Correct(hash)
            } else {
                Observation::Faulty
            },
        ),
    ensures
        forall|i: int| 0 <= i < n ==> slot_wf(votes0.insert(hash, nv), #[trigger] pan1[i], i),
{
    let votes1 = votes0.insert(hash, nv);
    let sd = nv.sender.0 as int;
    assert forall|i: int| 0 <= i < n implies slot_wf(votes1, #[trigger] pan1[i], i) by {
        assert(slot_wf(votes0, pan0[i], i));
        if i != sd {
            if let Observation::Correct(h0) = pan0[i] {
                assert forall|h: VoteHash| #[trigger]
                    votes1.contains_key(h) && votes1[h].sender.0 == i implies in_swimlane(
                    votes1,
                    h0,
                    h,
                ) by {
                    lemma_swimlane_insert(votes0, n, h0, votes1[h].seq_number, hash, nv);
                }
            }
        } else if pan1[i] is Correct {
            match pan0[i] {
                Observation::Unseen => {
                    assert forall|h: VoteHash| #[trigger]
                        votes1.contains_key(h) && votes1[h].sender.0 == i implies in_swimlane(
                        votes1,
                        hash,
                        h,
                    ) by {
                        assert(h == hash);
                    }
                },
                Observation::Correct(h0) => {
                    assert(votes0.contains_key(h0));
                    assert forall|h: VoteHash| #[trigger]
                        votes1.contains_key(h) && votes1[h].sender.0 == i implies in_swimlane(
                        votes1,
                        hash,
                        h,
                    ) by {
                        if h != hash {
                            lemma_swimlane_at_found(votes0, n, h0, votes0[h].seq_number);
                            lemma_swimlane_insert(votes0, n, h0, votes0[h].seq_number, hash, nv);
                        }
                    }
                },
                Observation::Faulty => {},
            }
        }
    }
}

/// Adding a valid vote under a new hash preserves the state's invariant.
proof fn lemma_add_vote_wf<V: Clone>(s0: State<V>, s1: State<V>, w: WireVote<V>)
    requires
        add_vote_step(s0, s1, w),
    ensures
        s1.wf(),
        s0.grows_into(s1),
{
    assert(!s0.blocks@.contains_key(w.hash));
    let n = s0.weights@.len();
    let sd = w.sender.0 as int;
    let nv = s0.new_vote_spec(&w);
    lemma_add_vote_votes_wf(s0, s1, w);
    lemma_fork_choice_props(s0, w.panorama@);
    assert(s0.blocks@.dom().finite());
    assert(s0.blocks@.len() <= u64::MAX);
    lemma_add_vote_blocks_wf(
        s0.blocks@,
        s1.blocks@,
        s0.votes@,
        w.hash,
        fork_choice_of(s0, w.panorama@),
        w.values,
    );
    lemma_valid_slot(s0, w.panorama@, sd);
    lemma_add_vote_slots_wf(s0.votes@, s0.panorama@, s1.panorama@, n, w.hash, nv);
    assert forall|i: int| 0 <= i < n implies (#[trigger] s1.evidence@[i] is Some
        <==> s1.panorama@[i] is Faulty) by {
        assert(s0.evidence@[i] is Some <==> s0.panorama@[i] is Faulty);
        if i == sd {
            if s0.reveals_equivocation(&w) {
                assert(s1.panorama@[i] is Faulty);
            } else {
                assert(s1.evidence@[i] == s0.evidence@[i]);
            }
        }
    }
}

/// A correct observation found by `first_correct` stands in the panorama.
proof fn lemma_first_correct(pan: Seq<Observation>, i: int)
    requires
        0 <= i,
    ensures
        first_correct(pan, i) matches Some(h) ==> exists|k: int|
            i <= k < pan.len() && pan[k] == Observation::Correct(h),
    decreases pan.len() - i,
{
    if i < pan.len() {
        if !(pan[i] is Correct) {
            lemma_first_correct(pan, i + 1);
        }
    }
}

/// The ancestor of block `b` at height `h`, following parents.
pub open spec fn ancestor_at<V>(blocks: Map<VoteHash, Block<V>>, b: VoteHash, h: u64) -> Option<VoteHash>
    decreases blocks[b].height,
{
    if !blocks.contains_key(b) || blocks[b].height < h {
        None
    } else if blocks[b].height == h {
        Some(b)
    } else {
        match blocks[b].parent {
            Some(p) => if blocks.contains_key(p) && blocks[p].height < blocks[b].height {
                ancestor_at(blocks, p, h)
            } else {
                None
            },
            None => None,
        }
    }
}

/// The previous vote in the swimlane of `h`, if any.
pub open spec fn prev_vote(votes: Map<VoteHash, Vote>, h: VoteHash) -> Option<VoteHash> {
    match votes[h].panorama@[votes[h].sender.0 as int] {
        Observation::Correct(p) => Some(p),
        _ => None,
    }
}

impl<V> State<V> {
    /// Returns the ancestor of block `bhash` at the given height, if there is one.
    pub(crate) fn find_ancestor(&self, bhash: VoteHash, height: u64) -> (r: Option<VoteHash>)
        requires
            self.wf(),
        ensures
            r == ancestor_at(self.blocks_map(), bhash, height),
            r matches Some(a) ==> self.blocks_map().contains_key(a),
    {
        let ghost blocks = self.blocks@;
        let mut cur = bhash;
        loop
            invariant
                self.wf(),
                blocks == self.blocks@,
                ancestor_at(blocks, bhash, height) == ancestor_at(blocks, cur, height),
            decreases blocks[cur].height,
        {
            let block = match self.blocks.get(&cur) {
                Some(b) => b,
                None => return None,
            };
            if block.height < height {
                return None;
            }
            if block.height == height {
                return Some(cur);
            }
            assert(block_wf(blocks, cur));
            match block.parent {
                Some(p) => {
                    cur = p;
                },
                None => return None,
            }
        }
    }

    /// Returns the previous vote in the swimlane of the known vote `h`.
    pub(crate) fn prev_vote(&self, h: VoteHash) -> (r: Option<VoteHash>)
        requires
            self.wf(),
            self.votes_map().contains_key(h),
        ensures
            r == prev_vote(self.votes_map(), h),
            r matches Some(p) ==> self.votes_map().contains_key(p) && self.votes_map()[p].seq_number + 1
                == self.votes_map()[h].seq_number && self.votes_map()[p].sender
                == self.votes_map()[h].sender,
            r is None ==> self.votes_map()[h].seq_number == 0,
    {
        let vote = self.vote(&h);
        assert(vote_wf(self.votes@, h, self.weights@.len()));
        assert(entry_wf(self.votes@, vote.panorama@[vote.sender.0 as int], vote.sender.0 as int, vote.sender.0 as int));
        vote.panorama.get(vote.sender).correct()
    }
}

/// Stepping from a vote of a swimlane to its previous vote stays in the swimlane.
pub proof fn lemma_swimlane_step(votes: Map<VoteHash, Vote>, n: nat, h: VoteHash, c: VoteHash)
    requires
        votes_wf(votes, n),
        votes.contains_key(c),
        swimlane_at(votes, h, votes[c].seq_number) == Some(c),
        prev_vote(votes, c) is Some,
    ensures
        swimlane_at(votes, h, votes[prev_vote(votes, c)->0].seq_number) == prev_vote(votes, c),
    decreases votes[h].seq_number,
{
    let p = prev_vote(votes, c)->0;
    assert(vote_wf(votes, c, n));
    assert(entry_wf(votes, votes[c].panorama@[votes[c].sender.0 as int], votes[c].sender.0 as int, votes[c].sender.0 as int));
    if h != c {
        lemma_swimlane_at_found(votes, n, h, votes[c].seq_number);
        assert(vote_wf(votes, h, n));
        let s = votes[h].sender.0 as int;
        assert(entry_wf(votes, votes[h].panorama@[s], s, s));
        if let Observation::Correct(q) = votes[h].panorama@[s] {
            lemma_swimlane_step(votes, n, q, c);
        }
    }
}

// ---------------------------------------------------------------------------
// Fork choice: from the height-0 blocks upwards, follow the child with the greatest weight of
// validators whose latest vote is for it or a descendant.

/// The block that entry `i` of `pan` votes for, if the entry is a correct vote.
pub open spec fn supported(votes: Map<VoteHash, Vote>, pan: Seq<Observation>, i: int) -> Option<VoteHash> {
    match pan[i] {
        Observation::Correct(h) => Some(votes[h].block),
        _ => None,
    }
}

/// Whether entry `i` of `pan` votes for block `c` of height `h` or a descendant of it.
pub open spec fn supports<V>(s: State<V>, pan: Seq<Observation>, i: int, c: VoteHash, h: u64) -> bool {
    match supported(s.votes_map(), pan, i) {
        Some(b) => ancestor_at(s.blocks_map(), b, h) == Some(c),
        None => false,
    }
}

/// The weight of the first `k` validators that support block `c` of height `h`.
pub open spec fn score_upto<V>(s: State<V>, pan: Seq<Observation>, c: VoteHash, h: u64, k: int) -> int
    decreases k,
{
    if k <= 0 {
        0
    } else {
        score_upto(s, pan, c, h, k - 1) + if supports(s, pan, k - 1, c, h) {
            s.weight_seq()[k - 1].0 as int
        } else {
            0
        }
    }
}

/// The weight of the validators that support block `c` of height `h`.
#[verifier::opaque]
pub open spec fn score<V>(s: State<V>, pan: Seq<Observation>, c: VoteHash, h: u64) -> int {
    score_upto(s, pan, c, h, s.weight_seq().len() as int)
}

/// The block of height `h` that entry `i` of `pan` supports, if it is a child of `cur`
/// (a height-0 block if `cur` is `None`).
#[verifier::opaque]
pub open spec fn candidate_of<V>(s: State<V>, pan: Seq<Observation>, i: int, cur: Option<VoteHash>, h: u64) -> Option<VoteHash> {
    match supported(s.votes_map(), pan, i) {
        Some(b) => match ancestor_at(s.blocks_map(), b, h) {
            Some(c) => if s.blocks_map()[c].parent == cur {
                Some(c)
            } else {
                None
            },
            None => None,
        },
        None => None,
    }
}

/// The better of the best candidate so far and a new candidate: the greater score wins, and of
/// equal scores the smaller hash.
pub open spec fn pick_better<V>(s: State<V>, pan: Seq<Observation>, h: u64, prev: Option<VoteHash>, cand: Option<VoteHash>) -> Option<VoteHash> {
    match cand {
        None => prev,
        Some(c) => match prev {
            None => Some(c),
            Some(b) => if score(s, pan, c, h) > score(s, pan, b, h) || (score(s, pan, c, h) == score(
                s,
                pan,
                b,
                h,
            ) && c < b) {
                Some(c)
            } else {
                prev
            },
        },
    }
}

/// Among the candidates of the first `k` entries, the one with the greatest score; of equal
/// scores, the one with the smaller hash.
pub open spec fn best_upto<V>(s: State<V>, pan: Seq<Observation>, cur: Option<VoteHash>, h: u64, k: int) -> Option<VoteHash>
    decreases k,
{
    if k <= 0 {
        None
    } else {
        pick_better(s, pan, h, best_upto(s, pan, cur, h, k - 1), candidate_of(s, pan, k - 1, cur, h))
    }
}

/// The fork choice below `cur`, which has height `h - 1` (or is `None` for `h == 0`).
pub open spec fn fork_choice_from<V>(s: State<V>, pan: Seq<Observation>, cur: Option<VoteHash>, h: u64) -> Option<VoteHash>
    decreases s.blocks_map().len() - h,
{
    if h as int >= s.blocks_map().len() || h == u64::MAX {
        cur
    } else {
        match best_upto(s, pan, cur, h, s.weight_seq().len() as int) {
            None => cur,
            Some(c) => fork_choice_from(s, pan, Some(c), (h + 1) as u64),
        }
    }
}

/// The fork choice of a panorama: the tip of the chain with the greatest support.
pub open spec fn fork_choice_of<V>(s: State<V>, pan: Seq<Observation>) -> Option<VoteHash> {
    fork_choice_from(s, pan, None, 0)
}

// ---------------------------------------------------------------------------
// Lemmas about swimlanes.

/// What `swimlane_at` finds is a stored vote with the requested sequence number.
pub proof fn lemma_swimlane_at_found(votes: Map<VoteHash, Vote>, n: nat, h: VoteHash, k: u64)
    requires
        votes_wf(votes, n),
        swimlane_at(votes, h, k) is Some,
    ensures
        votes.contains_key(h),
        votes.contains_key(swimlane_at(votes, h, k)->0),
        votes[swimlane_at(votes, h, k)->0].seq_number == k,
        votes[swimlane_at(votes, h, k)->0].sender == votes[h].sender,
        k <= votes[h].seq_number,
    decreases votes[h].seq_number,
{
    if votes[h].seq_number != k {
        let s = votes[h].sender.0 as int;
        assert(vote_wf(votes, h, n));
        assert(0 <= s < n);
        if let Observation::Correct(p) = votes[h].panorama@[s] {
            lemma_swimlane_at_found(votes, n, p, k);
        }
    }
}

/// Each vote's swimlane holds a vote for every smaller sequence number: no gaps.
pub proof fn lemma_swimlane_contiguous(votes: Map<VoteHash, Vote>, n: nat, h: VoteHash, k: u64)
    requires
        votes_wf(votes, n),
        votes.contains_key(h),
        k <= votes[h].seq_number,
    ensures
        swimlane_at(votes, h, k) is Some,
    decreases votes[h].seq_number,
{
    if votes[h].seq_number != k {
        let s = votes[h].sender.0 as int;
        assert(vote_wf(votes, h, n));
        assert(0 <= s < n);
        if let Observation::Correct(p) = votes[h].panorama@[s] {
            lemma_swimlane_contiguous(votes, n, p, k);
        }
    }
}

/// Adding a vote under a new hash leaves every existing swimlane unchanged.
pub proof fn lemma_swimlane_insert(
    votes: Map<VoteHash, Vote>,
    n: nat,
    h: VoteHash,
    k: u64,
    nh: VoteHash,
    nv: Vote,
)
    requires
        votes_wf(votes, n),
        votes.contains_key(h),
        !votes.contains_key(nh),
    ensures
        swimlane_at(votes.insert(nh, nv), h, k) == swimlane_at(votes, h, k),
    decreases votes[h].seq_number,
{
    let votes2 = votes.insert(nh, nv);
    assert(votes2[h] == votes[h]);
    if votes[h].seq_number > k {
        let s = votes[h].sender.0 as int;
        assert(vote_wf(votes, h, n));
        assert(0 <= s < n);
        if let Observation::Correct(p) = votes[h].panorama@[s] {
            assert(votes.contains_key(p));
            lemma_swimlane_insert(votes, n, p, k, nh, nv);
        }
    }
}

/// Swimlane membership is transitive.
pub proof fn lemma_in_swimlane_trans(
    votes: Map<VoteHash, Vote>,
    n: nat,
    a: VoteHash,
    b: VoteHash,
    c: VoteHash,
)
    requires
        votes_wf(votes, n),
        in_swimlane(votes, a, b),
        in_swimlane(votes, b, c),
    ensures
        in_swimlane(votes, a, c),
    decreases votes[a].seq_number,
{
    lemma_swimlane_at_found(votes, n, a, votes[b].seq_number);
    lemma_swimlane_at_found(votes, n, b, votes[c].seq_number);
    if votes[a].seq_number != votes[b].seq_number {
        let s = votes[a].sender.0 as int;
        assert(vote_wf(votes, a, n));
        if let Observation::Correct(p) = votes[a].panorama@[s] {
            lemma_in_swimlane_trans(votes, n, p, b, c);
        }
    }
}

} // verus!
verus! {

/// The facts that the state's invariant holds.
pub proof fn lemma_wf_facts<V>(state: State<V>)
    requires
        state.wf(),
    ensures
        state.num_validators() <= u32::MAX,
        total_weight(state.weight_seq()) <= u64::MAX,
        state.panorama_seq().len() == state.num_validators(),
        state.evidence_seq().len() == state.num_validators(),
        votes_wf(state.votes_map(), state.num_validators()),
        forall|h: VoteHash| #[trigger]
            state.votes_map().contains_key(h) ==> state.blocks_map().contains_key(state.votes_map()[h].block),
        state.blocks_wf(),
        forall|h: VoteHash| #[trigger] state.blocks_map().contains_key(h) ==> state.votes_map().contains_key(h),
        forall|i: int|
            0 <= i < state.num_validators() ==> slot_wf(state.votes_map(), #[trigger] state.panorama_seq()[i], i),
        forall|i: int|
            0 <= i < state.num_validators() ==> (#[trigger] state.evidence_seq()[i] is Some
                <==> state.panorama_seq()[i] is Faulty),
        state.blocks_map().dom().finite(),
{
}

/// Every observation of a known vote (or of nothing, or of a fault) can come later in time than
/// itself.
pub proof fn lemma_obs_geq_reflexive<V>(state: State<V>, o: Observation)
    requires
        state.wf(),
        o matches Observation::Correct(h) ==> state.votes_map().contains_key(h),
    ensures
        obs_geq(state.votes_map(), o, o),
{
}

/// Panorama dominance is transitive over the votes of a state.
pub proof fn lemma_obs_geq_transitive<V>(state: State<V>, a: Observation, b: Observation, c: Observation)
    requires
        state.wf(),
        obs_geq(state.votes_map(), a, b),
        obs_geq(state.votes_map(), b, c),
    ensures
        obs_geq(state.votes_map(), a, c),
{
    if let (Observation::Correct(ha), Observation::Correct(hb), Observation::Correct(hc)) = (a, b, c) {
        lemma_in_swimlane_trans(state.votes_map(), state.num_validators(), ha, hb, hc);
    }
}

/// The sequence numbers of a validator's accepted votes have no gaps: below each accepted vote,
/// its swimlane holds exactly one vote by the same sender for every smaller sequence number.
pub proof fn lemma_seq_numbers_contiguous<V>(state: State<V>, h: VoteHash, k: u64)
    requires
        state.wf(),
        state.votes_map().contains_key(h),
        k <= state.votes_map()[h].seq_number,
    ensures
        swimlane_at(state.votes_map(), h, k) matches Some(p) && state.votes_map().contains_key(p)
            && state.votes_map()[p].seq_number == k && state.votes_map()[p].sender
            == state.votes_map()[h].sender,
{
    lemma_swimlane_contiguous(state.votes_map(), state.num_validators(), h, k);
    lemma_swimlane_at_found(state.votes_map(), state.num_validators(), h, k);
}

/// Observing more validators as faulty never lowers the faulty weight.
pub proof fn lemma_faulty_weight_mono(ws: Seq<Weight>, pan0: Seq<Observation>, pan1: Seq<Observation>, k: int)
    requires
        forall|i: int| 0 <= i < k && #[trigger] pan0[i] is Faulty ==> pan1[i] is Faulty,
    ensures
        faulty_upto(ws, pan0, k) <= faulty_upto(ws, pan1, k),
    decreases k,
{
    if k > 0 {
        lemma_faulty_weight_mono(ws, pan0, pan1, k - 1);
    }
}

/// The faulty weight is at most the total weight, and a prefix sum at most the whole sum.
pub proof fn lemma_weight_bounds(ws: Seq<Weight>, pan: Seq<Observation>, k: int)
    requires
        0 <= k <= ws.len(),
    ensures
        0 <= faulty_upto(ws, pan, k) <= weight_upto(ws, k),
        0 <= weight_upto(ws, k) <= total_weight(ws),
    decreases ws.len() - k,
{
    lemma_faulty_prefix(ws, pan, k);
    if k < ws.len() {
        lemma_weight_bounds(ws, pan, k + 1);
    }
}

proof fn lemma_faulty_prefix(ws: Seq<Weight>, pan: Seq<Observation>, k: int)
    ensures
        0 <= faulty_upto(ws, pan, k) <= weight_upto(ws, k),
    decreases k,
{
    if k > 0 {
        lemma_faulty_prefix(ws, pan, k - 1);
    }
}

} // verus!
