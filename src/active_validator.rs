use vstd::prelude::*;

use crate::state::{lemma_wf_facts, slot_wf, total_weight, weight_upto, State};
use crate::vertex::{SignedWireVote, ValidatorSecret, Vertex, VoteHasher, WireVote};
use crate::state::first_correct;
use crate::vote::{Observation, Panorama, Vote, ValidatorIndex, VoteHash, Weight};

verus! {

/// An action taken by a validator.
#[derive(Debug)]
pub enum Effect<V> {
    /// A new vertex that should be gossiped to peers and added to the protocol state.
    NewVertex(Vertex<V>),
    /// `step` needs to be called at the specified instant.
    ScheduleTimer(u64),
    /// The values for a new block, led by this validator at the specified instant, are needed.
    RequestNewBlock(u64),
}

/// The first validator, from position `i` on, whose cumulative weight exceeds `x`.
pub open spec fn leader_from(ws: Seq<Weight>, x: int, i: int) -> Option<int>
    decreases ws.len() - i,
{
    if i < 0 || i >= ws.len() {
        None
    } else if x < weight_upto(ws, i + 1) {
        Some(i)
    } else {
        leader_from(ws, x, i + 1)
    }
}

/// The leader of the round starting at `round_id`: rounds are assigned to validators in
/// proportion to their weights, by the position of `round_id` modulo the total weight among
/// the validators' cumulative weights.
pub open spec fn leader_of(ws: Seq<Weight>, round_id: u64) -> Option<int> {
    if total_weight(ws) == 0 {
        None
    } else {
        leader_from(ws, round_id as int % total_weight(ws), 0)
    }
}

impl<V> State<V> {
    /// Returns the leader of the round starting at `round_id`, or `None` if all weights are 0.
    pub fn leader(&self, round_id: u64) -> (r: Option<ValidatorIndex>)
        requires
            self.wf(),
        ensures
            match (r, leader_of(self.weight_seq(), round_id)) {
                (Some(idx), Some(i)) => idx.0 as int == i,
                (None, None) => true,
                _ => false,
            },
    {
        proof {
            lemma_wf_facts(*self);
        }
        let ws = self.weights();
        let mut total: u64 = 0;
        let mut i: usize = 0;
        while i < ws.len()
            invariant
                ws@ == self.weight_seq(),
                total_weight(ws@) <= u64::MAX,
                i <= ws@.len(),
                total == weight_upto(ws@, i as int),
            decreases ws@.len() - i,
        {
            proof {
                crate::state::lemma_weight_bounds(ws@, self.panorama_seq(), i as int + 1);
            }
            total = total + ws[i].0;
            i = i + 1;
        }
        if total == 0 {
            return None;
        }
        let x = round_id % total;
        let mut acc: u64 = 0;
        let mut i: usize = 0;
        while i < ws.len()
            invariant
                ws@ == self.weight_seq(),
                ws@.len() <= u32::MAX,
                total_weight(ws@) <= u64::MAX,
                total == total_weight(ws@),
                x == round_id as int % total as int,
                i <= ws@.len(),
                acc == weight_upto(ws@, i as int),
                leader_from(ws@, x as int, 0) == leader_from(ws@, x as int, i as int),
            decreases ws@.len() - i,
        {
            proof {
                crate::state::lemma_weight_bounds(ws@, self.panorama_seq(), i as int + 1);
            }
            acc = acc + ws[i].0;
            if x < acc {
                return Some(ValidatorIndex(i as u32));
            }
            i = i + 1;
        }
        None
    }
}

/// A validator that actively participates in consensus by creating new vertices.
pub struct ActiveValidator<S> {
    /// Our own validator index.
    pub(crate) vidx: ValidatorIndex,
    /// The validator's secret signing key.
    pub(crate) secret: S,
    /// The round exponent: Our subjective rounds are `1 << round_exp` milliseconds long.
    pub(crate) round_exp: u8,
}

/// The offset of the witness point in a round of `round_len`: two thirds into the round.
pub open spec fn witness_offset(round_len: u64) -> int {
    (2 * round_len as int) / 3
}

/// The block request of `step` at `instant`: one if a round starts at `instant` and `vidx`
/// leads it.
pub open spec fn step_request<V>(ws: Seq<Weight>, vidx: ValidatorIndex, round_len: u64, instant: u64) -> Seq<Effect<V>> {
    let round_offset = instant % round_len;
    let round_id = (instant - round_offset) as u64;
    if round_offset == 0 && leader_of(ws, round_id) == Some(vidx.0 as int) {
        seq![Effect::RequestNewBlock(instant)]
    } else {
        Seq::empty()
    }
}

/// The sequence number of the witness vote of `step` at `instant`, if one is due: at the
/// witness point of a round, when the state has a correct vote to vote for and `vidx` is not
/// seen as faulty.
pub open spec fn witness_seq<V>(state: State<V>, vidx: ValidatorIndex, round_len: u64, instant: u64) -> Option<u64> {
    if instant % round_len == witness_offset(round_len) && first_correct(state.panorama_seq(), 0) is Some {
        next_seq_number(state.votes_map(), state.panorama_seq()[vidx.0 as int])
    } else {
        None
    }
}

/// The timer of `step` at `instant`: for the round's witness point if it is still ahead, else
/// for the next round's start, if that instant can be represented.
pub open spec fn step_timer<V>(round_len: u64, instant: u64) -> Seq<Effect<V>> {
    let round_offset = instant % round_len;
    let round_id = instant - round_offset;
    let next = if round_offset < witness_offset(round_len) {
        round_id + witness_offset(round_len)
    } else {
        round_id + round_len
    };
    if next <= u64::MAX {
        seq![Effect::ScheduleTimer(next as u64)]
    } else {
        Seq::empty()
    }
}

/// Whether `e` is a new vote by `sender` with the panorama `pan` and sequence number `seq`,
/// without a new block.
pub open spec fn is_witness<V>(e: Effect<V>, pan: Seq<Observation>, sender: ValidatorIndex, seq: u64) -> bool {
    match e {
        Effect::NewVertex(Vertex::Vote(swv)) => {
            &&& swv.wire_vote.panorama@ == pan
            &&& swv.wire_vote.sender == sender
            &&& swv.wire_vote.values is None
            &&& swv.wire_vote.seq_number == seq
        },
        _ => false,
    }
}

/// The effects of `step`: the block request, then the witness vote, then the timer.
pub open spec fn is_step_result<V>(r: Seq<Effect<V>>, state: State<V>, vidx: ValidatorIndex, round_len: u64, instant: u64) -> bool {
    let request = step_request::<V>(state.weight_seq(), vidx, round_len, instant);
    let witness = witness_seq(state, vidx, round_len, instant);
    let timer = step_timer::<V>(round_len, instant);
    let w: int = if witness is Some {
        1
    } else {
        0
    };
    &&& r.len() == request.len() + w + timer.len()
    &&& r.subrange(0, request.len() as int) == request
    &&& (witness matches Some(seq) ==> is_witness(r[request.len() as int], state.panorama_seq(), vidx, seq))
    &&& r.subrange(request.len() + w, r.len() as int) == timer
}

/// Whether the vote `swv` is by `sender`, sees `pan`, carries `values` and has sequence number
/// `seq`.
pub open spec fn vote_made<V>(swv: SignedWireVote<V>, pan: Seq<Observation>, sender: ValidatorIndex, values: Option<Vec<V>>, seq: u64) -> bool {
    &&& swv.wire_vote.panorama@ == pan
    &&& swv.wire_vote.sender == sender
    &&& swv.wire_vote.values == values
    &&& swv.wire_vote.seq_number == seq
}

/// Whether the panorama has a correct entry.
fn has_correct(pan: &Panorama) -> (r: bool)
    ensures
        r == (first_correct(pan@, 0) is Some),
{
    let mut i: usize = 0;
    while i < pan.len()
        invariant
            i <= pan@.len(),
            first_correct(pan@, 0) == first_correct(pan@, i as int),
        decreases pan@.len() - i,
    {
        if let Observation::Correct(_) = pan.0[i] {
            return true;
        }
        i = i + 1;
    }
    false
}

/// The sequence number of the next vote of a validator whose latest observation is `obs`, or
/// `None` for a faulty validator, or one with no sequence number left.
pub open spec fn next_seq_number(votes: Map<VoteHash, Vote>, obs: Observation) -> Option<u64> {
    match obs {
        Observation::Unseen => Some(0),
        Observation::Correct(h) => if votes[h].seq_number < u64::MAX {
            Some((votes[h].seq_number + 1) as u64)
        } else {
            None
        },
        Observation::Faulty => None,
    }
}

/// Whether `e` is a new vote by `sender` with the panorama `pan`, carrying a new block with
/// `values`, with sequence number `seq`.
pub open spec fn is_proposal<V>(e: Effect<V>, pan: Seq<crate::vote::Observation>, sender: ValidatorIndex, values: Vec<V>, seq: u64) -> bool {
    match e {
        Effect::NewVertex(Vertex::Vote(swv)) => {
            &&& swv.wire_vote.panorama@ == pan
            &&& swv.wire_vote.sender == sender
            &&& swv.wire_vote.values == Some(values)
            &&& swv.wire_vote.seq_number == seq
        },
        _ => false,
    }
}

impl<S: ValidatorSecret> ActiveValidator<S> {
    /// The length of this validator's rounds.
    pub open(crate) spec fn round_len(&self) -> u64 {
        (1u64 << self.round_exp) as u64
    }

    pub open(crate) spec fn index(&self) -> ValidatorIndex {
        self.vidx
    }

    pub open(crate) spec fn wf(&self) -> bool {
        self.round_exp < 64
    }

    /// Creates an active validator with index `vidx`, signing with `secret`, whose rounds are
    /// `1 << round_exp` milliseconds long.
    pub fn new(vidx: ValidatorIndex, secret: S, round_exp: u8) -> (r: Self)
        requires
            round_exp < 64,
        ensures
            r.wf(),
            r.index() == vidx,
            r.round_len() == (1u64 << round_exp),
    {
        ActiveValidator { vidx, secret, round_exp }
    }

    /// Returns actions a validator needs to take at the specified `instant`, with the given
    /// protocol `state`: at the start of each round it leads, it asks for a new block; at the
    /// witness point, two thirds into each round, it creates a witness vote that extends its
    /// swimlane without a new block; and it asks for a timer at its next such point.
    pub fn step<V, H: VoteHasher<V>>(&self, state: &State<V>, instant: u64, hasher: &H) -> (r: Vec<Effect<V>>)
        requires
            self.wf(),
            state.wf(),
            (self.index().0 as int) < state.num_validators(),
        ensures
            is_step_result(r@, *state, self.index(), self.round_len(), instant),
    {
        let e = self.round_exp;
        let round_len = 1u64 << e;
        assert(round_len > 0) by (bit_vector)
            requires
                round_len == 1u64 << e,
                e < 64,
        ;
        let round_offset = instant % round_len;
        proof {
            vstd::arithmetic::div_mod::lemma_mod_decreases(instant as nat, round_len as nat);
        }
        let round_id = instant - round_offset;
        let witness = ((2 * (round_len as u128)) / 3) as u64;
        assert(witness as int == witness_offset(round_len));
        let mut effects: Vec<Effect<V>> = Vec::new();
        if round_offset == 0 {
            match state.leader(round_id) {
                Some(idx) => if idx == self.vidx {
                    effects.push(Effect::RequestNewBlock(instant));
                },
                None => {},
            }
        }
        let ghost n_request = effects@.len();
        if round_offset == witness && has_correct(state.panorama()) {
            if let Some(vote) = self.new_vote(state, None, hasher) {
                effects.push(Effect::NewVertex(Vertex::Vote(vote)));
            }
        }
        let ghost n_witness = effects@.len();
        let next = if round_offset < witness {
            if round_id <= u64::MAX - witness {
                Some(round_id + witness)
            } else {
                None
            }
        } else if round_id <= u64::MAX - round_len {
            Some(round_id + round_len)
        } else {
            None
        };
        if let Some(t) = next {
            effects.push(Effect::ScheduleTimer(t));
        }
        proof {
            let request = step_request::<V>(state.weight_seq(), self.vidx, round_len, instant);
            let timer = step_timer::<V>(round_len, instant);
            assert(effects@.subrange(0, n_request as int) =~= request);
            assert(effects@.subrange(n_witness as int, effects@.len() as int) =~= timer);
        }
        effects
    }

    /// A new signed vote by this validator that extends its swimlane, sees the whole state and
    /// carries `values`; `None` for a validator seen as faulty, or one with no sequence number
    /// left.
    fn new_vote<V, H: VoteHasher<V>>(&self, state: &State<V>, values: Option<Vec<V>>, hasher: &H) -> (r: Option<SignedWireVote<V>>)
        requires
            state.wf(),
            (self.index().0 as int) < state.num_validators(),
        ensures
            match next_seq_number(state.votes_map(), state.panorama_seq()[self.index().0 as int]) {
                Some(seq) => (r matches Some(swv) && vote_made(swv, state.panorama_seq(), self.index(), values, seq)),
                None => r is None,
            },
    {
        proof {
            lemma_wf_facts(*state);
            assert(slot_wf(state.votes_map(), state.panorama_seq()[self.vidx.0 as int], self.vidx.0 as int));
        }
        let seq_number = match state.panorama().get(self.vidx) {
            Observation::Unseen => 0,
            Observation::Correct(h) => {
                let prev = state.vote(&h).seq_number;
                if prev == u64::MAX {
                    return None;
                }
                prev + 1
            },
            Observation::Faulty => return None,
        };
        let mut wire_vote = WireVote {
            hash: 0,
            panorama: state.panorama().copy(),
            sender: self.vidx,
            values,
            seq_number,
        };
        wire_vote.hash = hasher.hash_vote(&wire_vote);
        Some(SignedWireVote::new(wire_vote, &self.secret))
    }

    /// Proposes a new block with the given values: a signed vote that extends this validator's
    /// swimlane, sees the whole state, and carries the new block. A validator that is seen as
    /// faulty proposes nothing.
    pub fn propose<V, H: VoteHasher<V>>(&self, state: &State<V>, values: Vec<V>, hasher: &H) -> (r: Vec<Effect<V>>)
        requires
            state.wf(),
            (self.index().0 as int) < state.num_validators(),
        ensures
            match next_seq_number(state.votes_map(), state.panorama_seq()[self.index().0 as int]) {
                Some(seq) => r@.len() == 1 && is_proposal(r@[0], state.panorama_seq(), self.index(), values, seq),
                None => r@.len() == 0,
            },
    {
        let mut effects: Vec<Effect<V>> = Vec::new();
        if let Some(vote) = self.new_vote(state, Some(values), hasher) {
            effects.push(Effect::NewVertex(Vertex::Vote(vote)));
        }
        effects
    }
}

} // verus!
