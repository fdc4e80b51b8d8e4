use vstd::arithmetic::power2::{lemma2_to64, lemma_pow2_strictly_increases, lemma_pow2_unfold, pow2};
use vstd::prelude::*;

use crate::state::{
    ancestor_at, faulty_upto, faulty_weight, fork_choice_of, in_swimlane, lemma_faulty_weight_mono,
    lemma_ancestor_height, lemma_wf_facts, known_votes,
    lemma_swimlane_at_found, lemma_swimlane_step, lemma_weight_bounds, prev_vote, swimlane_at,
    total_weight, vote_wf, votes_wf, weight_upto, State,
};
use crate::vertex::clones;
use crate::vote::{Observation, Panorama, ValidatorIndex, Vote, VoteHash, Weight};

verus! {

// ---------------------------------------------------------------------------
// The summit algorithm's model.

/// Whether `pan` sees validator `i`'s entry in the section `sec`.
pub open spec fn can_see<V>(state: State<V>, pan: Seq<Observation>, sec: Seq<Option<u64>>, i: int) -> bool {
    match (pan[i], sec[i]) {
        (Observation::Correct(vh), Some(sn)) => state.votes_map()[vh].seq_number >= sn,
        _ => false,
    }
}

/// Whether `vote` counts committee member `i` towards its quorum: `i` is its sender, or it sees
/// `i`'s entry of `sec`.
pub open spec fn counts_member<V>(
    state: State<V>,
    vote: Vote,
    committee: Seq<bool>,
    sec: Seq<Option<u64>>,
    i: int,
) -> bool {
    committee[i] && (vote.sender.0 == i || can_see(state, vote.panorama@, sec, i))
}

/// The total weight of the `committee` members whose entry in `sec` is seen by `vote`, over the
/// first `k` validators.
pub open spec fn seen_upto<V>(
    state: State<V>,
    vote: Vote,
    committee: Seq<bool>,
    sec: Seq<Option<u64>>,
    k: int,
) -> int
    decreases k,
{
    if k <= 0 {
        0
    } else {
        seen_upto(state, vote, committee, sec, k - 1) + if counts_member(
            state,
            vote,
            committee,
            sec,
            k - 1,
        ) {
            state.weight_seq()[k - 1].0 as int
        } else {
            0
        }
    }
}

/// The total weight of the `committee` members whose entry in `sec` is seen by `vote`.
pub open spec fn seen_weight<V>(state: State<V>, vote: Vote, committee: Seq<bool>, sec: Seq<Option<u64>>) -> int {
    seen_upto(state, vote, committee, sec, state.weight_seq().len() as int)
}

/// The quorum that a summit of level `lvl` needs for the fault tolerance `ftt`:
/// `ceil(((2^lvl - 1) * total + 2^lvl * ftt) / (2 * 2^lvl - 2))`.
pub open spec fn quorum_for(lvl: nat, total: int, ftt: int) -> int {
    let p = pow2(lvl) as int;
    let numerator = (p - 1) * total + p * ftt;
    let denominator = 2 * p - 2;
    numerator / denominator + if numerator % denominator == 0 {
        0int
    } else {
        1int
    }
}

/// The quorum of a level-`lvl` summit can be computed: its numerator fits in 128 bits and
/// the quorum itself in 64.
pub open spec fn quorum_fits(lvl: nat, total: int, ftt: int) -> bool {
    &&& (pow2(lvl) - 1) * total + pow2(lvl) * ftt <= u128::MAX
    &&& quorum_for(lvl, total, ftt) <= u64::MAX
}

/// `c` starts the streak of votes ending in `top` that all satisfy `pred`: every vote of
/// `top`'s swimlane from `c` on satisfies it, and `c`'s previous vote, if any, does not.
pub open spec fn streak_start(
    votes: Map<VoteHash, Vote>,
    top: VoteHash,
    c: VoteHash,
    pred: spec_fn(VoteHash) -> bool,
) -> bool {
    &&& in_swimlane(votes, top, c)
    &&& forall|x: VoteHash|
        #[trigger] in_swimlane(votes, top, x) && votes[x].seq_number >= votes[c].seq_number
            ==> pred(x)
    &&& prev_vote(votes, c) matches Some(p) ==> !pred(p)
}

/// `c` starts the streak of votes for `candidate` ending in `top`.
pub open spec fn candidate_streak_start<V>(
    state: State<V>,
    top: VoteHash,
    c: VoteHash,
    candidate: VoteHash,
    height: u64,
) -> bool {
    streak_start(state.votes_map(), top, c, |x: VoteHash| votes_for(state, x, candidate, height))
}

/// `c` starts the streak of votes ending in `top` that see a quorum of the `committee` members'
/// entries in `sec`.
pub open spec fn quorum_streak_start<V>(
    state: State<V>,
    top: VoteHash,
    c: VoteHash,
    committee: Seq<bool>,
    sec: Seq<Option<u64>>,
    quorum: u64,
) -> bool {
    streak_start(
        state.votes_map(),
        top,
        c,
        |x: VoteHash| seen_weight(state, state.votes_map()[x], committee, sec) >= quorum,
    )
}

/// The sequence number of the start of the streak of votes for `candidate` ending in `top`, or
/// `None` if `top` is not for `candidate`.
pub open spec fn candidate_streak_seq<V>(state: State<V>, top: VoteHash, candidate: VoteHash, height: u64) -> Option<u64> {
    if exists|c: VoteHash| #[trigger] candidate_streak_start(state, top, c, candidate, height) {
        Some(state.votes_map()[choose|c: VoteHash| #[trigger] candidate_streak_start(state, top, c, candidate, height)].seq_number)
    } else {
        None
    }
}

/// The sequence number of the start of the streak of votes ending in `top` that see a quorum
/// of the committee's entries in `sec`, or `None` if `top` does not.
pub open spec fn quorum_streak_seq<V>(
    state: State<V>,
    top: VoteHash,
    committee: Seq<bool>,
    sec: Seq<Option<u64>>,
    quorum: u64,
) -> Option<u64> {
    if exists|c: VoteHash| #[trigger] quorum_streak_start(state, top, c, committee, sec, quorum) {
        Some(state.votes_map()[choose|c: VoteHash| #[trigger] quorum_streak_start(state, top, c, committee, sec, quorum)].seq_number)
    } else {
        None
    }
}

/// The level-0 section for `candidate`: for each validator whose latest vote is correct, the
/// start of its streak of votes for `candidate` or a descendant.
pub open spec fn level0_spec<V>(state: State<V>, candidate: VoteHash) -> Seq<Option<u64>> {
    Seq::new(
        state.num_validators(),
        |i: int|
            match state.panorama_seq()[i] {
                Observation::Correct(vh) => candidate_streak_seq(
                    state,
                    vh,
                    candidate,
                    state.blocks_map()[candidate].height,
                ),
                _ => None,
            },
    )
}

/// The committee of the validators with an entry in `sec`.
pub open spec fn init_committee(sec: Seq<Option<u64>>) -> Seq<bool> {
    Seq::new(sec.len(), |i: int| sec[i] is Some)
}

/// One round of pruning: the members whose latest vote sees a quorum of the committee.
pub open spec fn prune_step<V>(state: State<V>, sec: Seq<Option<u64>>, quorum: u64, committee: Seq<bool>) -> Seq<bool> {
    Seq::new(committee.len(), |i: int| committee[i] && sees_quorum(state, committee, sec, quorum, i))
}

/// Pruning repeated until nothing changes, at most `fuel` times.
pub open spec fn prune_fuel<V>(state: State<V>, sec: Seq<Option<u64>>, quorum: u64, committee: Seq<bool>, fuel: nat) -> Seq<bool>
    decreases fuel,
{
    if fuel == 0 {
        committee
    } else {
        let next = prune_step(state, sec, quorum, committee);
        if next == committee {
            committee
        } else {
            prune_fuel(state, sec, quorum, next, (fuel - 1) as nat)
        }
    }
}

/// The greatest committee of validators with an entry in `sec` whose latest votes see a quorum
/// of the committee's entries in `sec`.
pub open spec fn pruned_spec<V>(state: State<V>, sec: Seq<Option<u64>>, quorum: u64) -> Seq<bool> {
    prune_fuel(state, sec, quorum, init_committee(sec), sec.len() + 1)
}

/// The section following `sec` for `committee`: for each member, the start of the streak of its
/// votes that see a quorum of the committee's entries in `sec`.
pub open spec fn next_sec_spec<V>(state: State<V>, sec: Seq<Option<u64>>, quorum: u64, committee: Seq<bool>) -> Seq<Option<u64>> {
    Seq::new(
        committee.len(),
        |i: int|
            if committee[i] {
                match state.panorama_seq()[i] {
                    Observation::Correct(vh) => quorum_streak_seq(state, vh, committee, sec, quorum),
                    _ => None,
                }
            } else {
                None
            },
    )
}

/// The next section, or `None` if the pruned committee is empty.
pub open spec fn next_spec<V>(state: State<V>, sec: Seq<Option<u64>>, quorum: u64) -> Option<Seq<Option<u64>>> {
    let committee = pruned_spec(state, sec, quorum);
    if exists|i: int| 0 <= i < committee.len() && committee[i] {
        Some(next_sec_spec(state, sec, quorum, committee))
    } else {
        None
    }
}

/// How many sections follow `sec`, up to `k`.
pub open spec fn summit_count<V>(state: State<V>, sec: Seq<Option<u64>>, quorum: u64, k: nat) -> nat
    decreases k,
{
    if k == 0 {
        0
    } else {
        match next_spec(state, sec, quorum) {
            None => 0,
            Some(next) => 1 + summit_count(state, next, quorum, (k - 1) as nat),
        }
    }
}

/// The quorum of a level-`lvl` summit, lowered by the weight of the faulty validators.
pub open spec fn quorum_at(lvl: nat, total: int, fault: int, ftt: int) -> u64 {
    if quorum_for(lvl, total, ftt) > fault {
        (quorum_for(lvl, total, ftt) - fault) as u64
    } else {
        0
    }
}

/// Whether `candidate` is finalized, trying summit levels from `target` down: a level whose
/// summit reaches that level finalizes it, and otherwise the level reached is tried next.
pub open spec fn finalizes_from<V>(state: State<V>, candidate: VoteHash, total: int, fault: int, ftt: int, target: nat) -> bool
    decreases target,
{
    if target == 0 || target > 64 {
        false
    } else {
        let lvl = summit_count(
            state,
            level0_spec(state, candidate),
            quorum_at(target, total, fault, ftt),
            target,
        );
        if lvl == target {
            true
        } else if lvl < target {
            finalizes_from(state, candidate, total, fault, ftt, lvl)
        } else {
            false
        }
    }
}

proof fn lemma_summit_count_le<V>(state: State<V>, sec: Seq<Option<u64>>, quorum: u64, k: nat)
    ensures
        summit_count(state, sec, quorum, k) <= k,
    decreases k,
{
    if k > 0 {
        if let Some(next) = next_spec(state, sec, quorum) {
            lemma_summit_count_le(state, next, quorum, (k - 1) as nat);
        }
    }
}

/// A swimlane has at most one start of a streak of votes satisfying `pred`.
proof fn lemma_streak_unique(
    votes: Map<VoteHash, Vote>,
    n: nat,
    top: VoteHash,
    c1: VoteHash,
    c2: VoteHash,
    pred: spec_fn(VoteHash) -> bool,
)
    requires
        votes_wf(votes, n),
        streak_start(votes, top, c1, pred),
        streak_start(votes, top, c2, pred),
    ensures
        votes[c1].seq_number == votes[c2].seq_number,
{
    lemma_streak_not_later(votes, n, top, c1, c2, pred);
    lemma_streak_not_later(votes, n, top, c2, c1, pred);
}

proof fn lemma_streak_not_later(
    votes: Map<VoteHash, Vote>,
    n: nat,
    top: VoteHash,
    c1: VoteHash,
    c2: VoteHash,
    pred: spec_fn(VoteHash) -> bool,
)
    requires
        votes_wf(votes, n),
        streak_start(votes, top, c1, pred),
        streak_start(votes, top, c2, pred),
    ensures
        votes[c2].seq_number <= votes[c1].seq_number,
{
    if votes[c1].seq_number < votes[c2].seq_number {
        assert(vote_wf(votes, c2, n));
        let s = votes[c2].sender.0 as int;
        assert(crate::state::entry_wf(votes, votes[c2].panorama@[s], s, s));
        let p = prev_vote(votes, c2)->0;
        lemma_swimlane_step(votes, n, top, c2);
        assert(in_swimlane(votes, top, p));
    }
}

/// Whether the vote `x` is for `candidate`, at height `height`, or a descendant of it.
pub open spec fn votes_for<V>(state: State<V>, x: VoteHash, candidate: VoteHash, height: u64) -> bool {
    ancestor_at(state.blocks_map(), state.votes_map()[x].block, height) == Some(candidate)
}

// ---------------------------------------------------------------------------
// Sections: for each validator, the sequence number of its earliest vote of some level.

proof fn lemma_vote_entries_known<V>(state: State<V>, h: VoteHash)
    requires
        state.wf(),
        state.votes_map().contains_key(h),
    ensures
        known_votes(state, state.votes_map()[h].panorama@),
        state.votes_map()[h].panorama@.len() == state.num_validators(),
        (state.votes_map()[h].sender.0 as int) < state.num_validators(),
{
    let n = state.num_validators();
    lemma_wf_facts(state);
    assert(vote_wf(state.votes_map(), h, n));
    assert forall|k: int| 0 <= k < n implies (#[trigger] state.votes_map()[h].panorama@[k] matches Observation::Correct(
        p,
    ) ==> state.votes_map().contains_key(p)) by {
        assert(crate::state::entry_wf(
            state.votes_map(),
            state.votes_map()[h].panorama@[k],
            k,
            state.votes_map()[h].sender.0 as int,
        ));
    }
}

proof fn lemma_state_entries_known<V>(state: State<V>)
    requires
        state.wf(),
    ensures
        known_votes(state, state.panorama_seq()),
        state.panorama_seq().len() == state.num_validators(),
        state.num_validators() <= u32::MAX,
{
    lemma_wf_facts(state);
    assert forall|k: int| 0 <= k < state.panorama_seq().len() implies (#[trigger] state.panorama_seq()[k] matches Observation::Correct(
        p,
    ) ==> state.votes_map().contains_key(p)) by {
        assert(crate::state::slot_wf(state.votes_map(), state.panorama_seq()[k], k));
    }
}

/// Returns whether `pan` can see `idx`'s entry in `sec`.
fn can_see_exec<V>(state: &State<V>, pan: &Panorama, sec: &Vec<Option<u64>>, idx: usize) -> (r: bool)
    requires
        state.wf(),
        known_votes(*state, pan@),
        idx < pan@.len(),
        idx < sec@.len(),
    ensures
        r == can_see(*state, pan@, sec@, idx as int),
{
    match (pan.0[idx], sec[idx]) {
        (Observation::Correct(vhash), Some(sn)) => state.vote(&vhash).seq_number >= sn,
        _ => false,
    }
}

/// Returns the total weight of the `committee`'s members whose entry in `sec` is seen by `vote`.
fn seen_weight_exec<V>(state: &State<V>, vote: &Vote, committee: &Vec<bool>, sec: &Vec<Option<u64>>) -> (r: u64)
    requires
        state.wf(),
        known_votes(*state, vote.panorama@),
        vote.panorama@.len() == state.num_validators(),
        committee@.len() == state.num_validators(),
        sec@.len() == state.num_validators(),
    ensures
        r == seen_weight(*state, *vote, committee@, sec@),
{
    let n = state.weights.len();
    let mut sum: u64 = 0;
    let mut i: usize = 0;
    proof {
        lemma_wf_facts(*state);
    }
    while i < n
        invariant
            state.wf(),
            total_weight(state.weight_seq()) <= u64::MAX,
            known_votes(*state, vote.panorama@),
            n == state.num_validators(),
            vote.panorama@.len() == n,
            committee@.len() == n,
            sec@.len() == n,
            i <= n,
            sum == seen_upto(*state, *vote, committee@, sec@, i as int),
            sum <= weight_upto(state.weight_seq(), i as int),
        decreases n - i,
    {
        proof {
            lemma_weight_bounds(state.weight_seq(), state.panorama_seq(), i as int + 1);
        }
        if committee[i] && (vote.sender.0 as usize == i || can_see_exec(state, &vote.panorama, sec, i)) {
            sum = sum + state.weights[i].0;
        }
        i = i + 1;
    }
    sum
}

/// The earliest vote of the streak of votes for `candidate` ending in `top`, or `None` if `top`
/// is not for `candidate`.
fn candidate_streak<V>(state: &State<V>, top: VoteHash, candidate: VoteHash, height: u64) -> (r: Option<u64>)
    requires
        state.wf(),
        state.votes_map().contains_key(top),
    ensures
        r == candidate_streak_seq(*state, top, candidate, height),
{
    let ghost votes = state.votes_map();
    let ghost n = state.num_validators();
    if state.find_ancestor(state.vote(&top).block, height) != Some(candidate) {
        proof {
            lemma_wf_facts(*state);
            assert forall|c: VoteHash| !#[trigger] candidate_streak_start(*state, top, c, candidate, height) by {
                if candidate_streak_start(*state, top, c, candidate, height) {
                    lemma_swimlane_at_found(votes, n, top, votes[c].seq_number);
                    assert(in_swimlane(votes, top, top));
                }
            }
        }
        return None;
    }
    let mut cur = top;
    proof {
        lemma_wf_facts(*state);
        lemma_swimlane_at_found(votes, n, top, votes[top].seq_number);
    }
    loop
        invariant
            state.wf(),
            votes == state.votes_map(),
            n == state.num_validators(),
            votes.contains_key(cur),
            in_swimlane(votes, top, cur),
            votes_wf(votes, n),
            votes_for(*state, cur, candidate, height),
            forall|x: VoteHash|
                #[trigger] in_swimlane(votes, top, x) && votes[x].seq_number >= votes[cur].seq_number
                    ==> votes_for(*state, x, candidate, height),
        ensures
            votes.contains_key(cur),
            in_swimlane(votes, top, cur),
            forall|x: VoteHash|
                #[trigger] in_swimlane(votes, top, x) && votes[x].seq_number >= votes[cur].seq_number
                    ==> votes_for(*state, x, candidate, height),
            prev_vote(votes, cur) matches Some(p) ==> !votes_for(*state, p, candidate, height),
        decreases votes[cur].seq_number,
    {
        match state.prev_vote(cur) {
            Some(p) => {
                if state.find_ancestor(state.vote(&p).block, height) == Some(candidate) {
                    proof {
                        lemma_swimlane_step(votes, n, top, cur);
                        assert forall|x: VoteHash|
                            #[trigger] in_swimlane(votes, top, x) && votes[x].seq_number
                                >= votes[p].seq_number implies votes_for(*state, x, candidate, height) by {
                            if votes[x].seq_number == votes[p].seq_number {
                                assert(x == p);
                            }
                        }
                    }
                    cur = p;
                } else {
                    break;
                }
            },
            None => break,
        }
    }
    assert(candidate_streak_start(*state, top, cur, candidate, height));
    proof {
        let c2 = choose|c: VoteHash| #[trigger] candidate_streak_start(*state, top, c, candidate, height);
        lemma_streak_unique(votes, n, top, cur, c2, |x: VoteHash| votes_for(*state, x, candidate, height));
    }
    Some(state.vote(&cur).seq_number)
}

/// The earliest vote of the streak of votes ending in `top` that see a quorum of the committee
/// members' entries in `sec`, or `None` if `top` itself does not.
fn quorum_streak<V>(
    state: &State<V>,
    top: VoteHash,
    committee: &Vec<bool>,
    sec: &Vec<Option<u64>>,
    quorum: u64,
) -> (r: Option<u64>)
    requires
        state.wf(),
        state.votes_map().contains_key(top),
        committee@.len() == state.num_validators(),
        sec@.len() == state.num_validators(),
    ensures
        r == quorum_streak_seq(*state, top, committee@, sec@, quorum),
{
    let ghost votes = state.votes_map();
    let ghost n = state.num_validators();
    proof {
        lemma_vote_entries_known(*state, top);
    }
    if seen_weight_exec(state, state.vote(&top), committee, sec) < quorum {
        proof {
            lemma_wf_facts(*state);
            assert forall|c: VoteHash| !#[trigger] quorum_streak_start(*state, top, c, committee@, sec@, quorum) by {
                if quorum_streak_start(*state, top, c, committee@, sec@, quorum) {
                    lemma_swimlane_at_found(votes, n, top, votes[c].seq_number);
                    assert(in_swimlane(votes, top, top));
                }
            }
        }
        return None;
    }
    let mut cur = top;
    proof {
        lemma_wf_facts(*state);
        lemma_swimlane_at_found(votes, n, top, votes[top].seq_number);
    }
    loop
        invariant
            state.wf(),
            votes == state.votes_map(),
            n == state.num_validators(),
            committee@.len() == n,
            sec@.len() == n,
            votes.contains_key(cur),
            in_swimlane(votes, top, cur),
            votes_wf(votes, n),
            seen_weight(*state, votes[cur], committee@, sec@) >= quorum,
            forall|x: VoteHash|
                #[trigger] in_swimlane(votes, top, x) && votes[x].seq_number >= votes[cur].seq_number
                    ==> seen_weight(*state, votes[x], committee@, sec@) >= quorum,
        ensures
            votes.contains_key(cur),
            in_swimlane(votes, top, cur),
            forall|x: VoteHash|
                #[trigger] in_swimlane(votes, top, x) && votes[x].seq_number >= votes[cur].seq_number
                    ==> seen_weight(*state, votes[x], committee@, sec@) >= quorum,
            prev_vote(votes, cur) matches Some(p) ==> seen_weight(*state, votes[p], committee@, sec@) < quorum,
        decreases votes[cur].seq_number,
    {
        match state.prev_vote(cur) {
            Some(p) => {
                proof {
                    lemma_vote_entries_known(*state, p);
                }
                if seen_weight_exec(state, state.vote(&p), committee, sec) >= quorum {
                    proof {
                        lemma_swimlane_step(votes, n, top, cur);
                        assert forall|x: VoteHash|
                            #[trigger] in_swimlane(votes, top, x) && votes[x].seq_number
                                >= votes[p].seq_number implies seen_weight(*state, votes[x], committee@, sec@) >= quorum by {
                            if votes[x].seq_number == votes[p].seq_number {
                                assert(x == p);
                            }
                        }
                    }
                    cur = p;
                } else {
                    break;
                }
            },
            None => break,
        }
    }
    assert(quorum_streak_start(*state, top, cur, committee@, sec@, quorum));
    proof {
        let c2 = choose|c: VoteHash| #[trigger] quorum_streak_start(*state, top, c, committee@, sec@, quorum);
        lemma_streak_unique(
            votes,
            n,
            top,
            cur,
            c2,
            |x: VoteHash| seen_weight(*state, state.votes_map()[x], committee@, sec@) >= quorum,
        );
    }
    Some(state.vote(&cur).seq_number)
}

/// Creates a section assigning to each validator their level-0 vote, i.e. the oldest vote in
/// their current streak of votes for `candidate` (and descendants), or `None` if their latest
/// vote is not for `candidate`.
fn level0<V>(candidate: VoteHash, state: &State<V>) -> (r: Vec<Option<u64>>)
    requires
        state.wf(),
        state.blocks_map().contains_key(candidate),
    ensures
        r@ == level0_spec(*state, candidate),
{
    let height = state.block(&candidate).height;
    let n = state.weights.len();
    let mut sec: Vec<Option<u64>> = Vec::new();
    let mut i: usize = 0;
    proof {
        lemma_state_entries_known(*state);
    }
    while i < n
        invariant
            state.wf(),
            known_votes(*state, state.panorama_seq()),
            state.panorama_seq().len() == n,
            n <= u32::MAX,
            n == state.num_validators(),
            height == state.blocks_map()[candidate].height,
            i <= n,
            sec@.len() == i,
            forall|k: int|
                0 <= k < i ==> #[trigger] sec@[k] == match state.panorama_seq()[k] {
                    Observation::Correct(vh) => candidate_streak_seq(*state, vh, candidate, height),
                    _ => None,
                },
        decreases n - i,
    {
        let entry = match state.panorama.get(ValidatorIndex(i as u32)) {
            Observation::Correct(vh) => candidate_streak(state, vh, candidate, height),
            _ => None,
        };
        sec.push(entry);
        i = i + 1;
    }
    assert(sec@ =~= level0_spec(*state, candidate));
    sec
}

/// The number of `true` entries among the first `k`.
pub open spec fn count_members(c: Seq<bool>, k: int) -> nat
    decreases k,
{
    if k <= 0 {
        0
    } else {
        count_members(c, k - 1) + if c[k - 1] {
            1nat
        } else {
            0nat
        }
    }
}

proof fn lemma_count_shrinks(a: Seq<bool>, b: Seq<bool>, k: int, j: int)
    requires
        0 <= j < k <= a.len(),
        a.len() == b.len(),
        forall|i: int| 0 <= i < a.len() && #[trigger] b[i] ==> a[i],
        a[j] && !b[j],
    ensures
        count_members(b, k) < count_members(a, k),
    decreases k,
{
    if j < k - 1 {
        lemma_count_shrinks(a, b, k - 1, j);
    } else {
        lemma_count_le(a, b, k - 1);
    }
}

proof fn lemma_count_le(a: Seq<bool>, b: Seq<bool>, k: int)
    requires
        k <= a.len(),
        a.len() == b.len(),
        forall|i: int| 0 <= i < a.len() && #[trigger] b[i] ==> a[i],
    ensures
        count_members(b, k) <= count_members(a, k),
    decreases k,
{
    if k > 0 {
        lemma_count_le(a, b, k - 1);
    }
}

/// Whether each member of `committee`, by its latest vote, sees a quorum of the committee's
/// entries in `sec`.
pub open spec fn sees_quorum<V>(state: State<V>, committee: Seq<bool>, sec: Seq<Option<u64>>, quorum: u64, i: int) -> bool {
    match state.panorama_seq()[i] {
        Observation::Correct(vh) => seen_weight(state, state.votes_map()[vh], committee, sec) >= quorum,
        _ => false,
    }
}

/// Returns the greatest committee of validators whose latest votes can see a quorum of votes
/// by the committee in `sec`.
fn pruned_committee<V>(state: &State<V>, sec: &Vec<Option<u64>>, quorum: u64) -> (r: Vec<bool>)
    requires
        state.wf(),
        sec@.len() == state.num_validators(),
    ensures
        r@ == pruned_spec(*state, sec@, quorum),
        r@.len() == state.num_validators(),
{
    let n = state.weights.len();
    let mut committee: Vec<bool> = Vec::new();
    let mut i: usize = 0;
    while i < n
        invariant
            i <= n,
            n == sec@.len(),
            committee@.len() == i,
            forall|k: int| 0 <= k < i ==> (#[trigger] committee@[k] <==> sec@[k] is Some),
        decreases n - i,
    {
        committee.push(sec[i].is_some());
        i = i + 1;
    }
    assert(committee@ =~= init_committee(sec@));
    proof {
        lemma_state_entries_known(*state);
        lemma_count_bound(committee@, n as int);
    }
    let ghost mut fuel: nat = (n + 1) as nat;
    loop
        invariant
            state.wf(),
            known_votes(*state, state.panorama_seq()),
            state.panorama_seq().len() == n,
            n <= u32::MAX,
            n == state.num_validators(),
            n == sec@.len(),
            committee@.len() == n,
            pruned_spec(*state, sec@, quorum) == prune_fuel(*state, sec@, quorum, committee@, fuel),
            count_members(committee@, n as int) + 1 <= fuel,
        decreases count_members(committee@, n as int),
    {
        let mut next: Vec<bool> = Vec::new();
        let mut changed = false;
        let ghost mut removed: int = 0;
        let mut i: usize = 0;
        while i < n
            invariant
                state.wf(),
                known_votes(*state, state.panorama_seq()),
                state.panorama_seq().len() == n,
                n <= u32::MAX,
                n == state.num_validators(),
                n == sec@.len(),
                committee@.len() == n,
                i <= n,
                next@.len() == i,
                forall|k: int| 0 <= k < i ==> (#[trigger] next@[k] <==> committee@[k] && sees_quorum(*state, committee@, sec@, quorum, k)),
                changed ==> 0 <= removed < i && committee@[removed] && !next@[removed],
                !changed ==> forall|k: int| 0 <= k < i ==> (#[trigger] next@[k] == committee@[k]),
            decreases n - i,
        {
            let keep = committee[i] && match state.panorama.get(ValidatorIndex(i as u32)) {
                Observation::Correct(vh) => {
                    proof {
                        lemma_vote_entries_known(*state, vh);
                    }
                    seen_weight_exec(state, state.vote(&vh), &committee, sec) >= quorum
                },
                _ => false,
            };
            if committee[i] && !keep {
                changed = true;
                proof {
                    removed = i as int;
                }
            }
            next.push(keep);
            i = i + 1;
        }
        assert(next@ =~= prune_step(*state, sec@, quorum, committee@));
        if !changed {
            assert(next@ =~= committee@);
            return committee;
        }
        proof {
            lemma_count_shrinks(committee@, next@, n as int, removed);
            assert(next@ != committee@) by {
                assert(next@[removed] != committee@[removed]);
            }
            fuel = (fuel - 1) as nat;
        }
        committee = next;
    }
}

proof fn lemma_count_bound(c: Seq<bool>, k: int)
    requires
        0 <= k,
    ensures
        count_members(c, k) <= k,
    decreases k,
{
    if k > 0 {
        lemma_count_bound(c, k - 1);
    }
}

/// Returns the section containing the earliest vote of each of the `committee` members that
/// can see a quorum of votes by `committee` members in `sec`.
fn next_from_committee<V>(state: &State<V>, sec: &Vec<Option<u64>>, quorum: u64, committee: &Vec<bool>) -> (r: Vec<Option<u64>>)
    requires
        state.wf(),
        sec@.len() == state.num_validators(),
        committee@.len() == state.num_validators(),
    ensures
        r@ == next_sec_spec(*state, sec@, quorum, committee@),
{
    let n = state.weights.len();
    let mut next: Vec<Option<u64>> = Vec::new();
    let mut i: usize = 0;
    proof {
        lemma_state_entries_known(*state);
    }
    while i < n
        invariant
            state.wf(),
            known_votes(*state, state.panorama_seq()),
            state.panorama_seq().len() == n,
            n <= u32::MAX,
            n == state.num_validators(),
            sec@.len() == n,
            committee@.len() == n,
            i <= n,
            next@.len() == i,
            forall|k: int|
                0 <= k < i ==> #[trigger] next@[k] == if committee@[k] {
                    match state.panorama_seq()[k] {
                        Observation::Correct(vh) => quorum_streak_seq(*state, vh, committee@, sec@, quorum),
                        _ => None,
                    }
                } else {
                    None
                },
        decreases n - i,
    {
        let entry = if committee[i] {
            match state.panorama.get(ValidatorIndex(i as u32)) {
                Observation::Correct(vh) => quorum_streak(state, vh, committee, sec, quorum),
                _ => None,
            }
        } else {
            None
        };
        next.push(entry);
        i = i + 1;
    }
    assert(next@ =~= next_sec_spec(*state, sec@, quorum, committee@));
    next
}

/// Returns a section of votes each of which can see a quorum of votes in `sec` by validators
/// that are part of it, or `None` if no committee sees a quorum.
fn next_section<V>(state: &State<V>, sec: &Vec<Option<u64>>, quorum: u64) -> (r: Option<Vec<Option<u64>>>)
    requires
        state.wf(),
        sec@.len() == state.num_validators(),
    ensures
        match r {
            Some(next) => next_spec(*state, sec@, quorum) == Some(next@) && next@.len() == state.num_validators(),
            None => next_spec(*state, sec@, quorum) is None,
        },
{
    let committee = pruned_committee(state, sec, quorum);
    let mut i: usize = 0;
    while i < committee.len()
        invariant
            state.wf(),
            sec@.len() == state.num_validators(),
            committee@ == pruned_spec(*state, sec@, quorum),
            committee@.len() == state.num_validators(),
            i <= committee@.len(),
            forall|k: int| 0 <= k < i ==> !(#[trigger] committee@[k]),
        decreases committee@.len() - i,
    {
        if committee[i] {
            let next = next_from_committee(state, sec, quorum, &committee);
            assert(committee@[i as int]);
            return Some(next);
        }
        i = i + 1;
    }
    None
}

// ---------------------------------------------------------------------------
// The detector.

/// The result of running the finality detector on a protocol state.
#[derive(Debug, PartialEq, Eq)]
pub enum FinalityResult<V> {
    /// No new block has been finalized yet.
    Undecided,
    /// A new block with these consensus values has been finalized.
    Finalized(Vec<V>),
    /// The fault tolerance threshold has been exceeded: The number of observed equivocations
    /// invalidates this finality detector's results.
    FttExceeded,
}

/// An incremental finality detector.
///
/// It reuses information between subsequent calls, so it must always be applied to the same
/// `State` instance.
pub struct FinalityDetector {
    /// The most recent known finalized block.
    pub(crate) last_finalized: Option<VoteHash>,
    /// The fault tolerance threshold.
    pub(crate) ftt: Weight,
    /// The blocks finalized so far, in order.
    pub(crate) finalized: Ghost<Seq<VoteHash>>,
}

impl FinalityDetector {
    pub open(crate) spec fn ftt_spec(&self) -> u64 {
        self.ftt.0
    }

    pub open(crate) spec fn last_finalized_spec(&self) -> Option<VoteHash> {
        self.last_finalized
    }

    pub open(crate) spec fn history(&self) -> Seq<VoteHash> {
        self.finalized@
    }

    /// The detector's invariant relative to the state it runs on: its history holds one block
    /// of each height from 0 on, and the last one is the latest finalized block.
    pub open(crate) spec fn wf_for<V>(&self, state: State<V>) -> bool {
        &&& self.last_finalized == if self.finalized@.len() == 0 {
            None::<VoteHash>
        } else {
            Some(self.finalized@.last())
        }
        &&& forall|i: int|
            0 <= i < self.finalized@.len() ==> state.blocks_map().contains_key(#[trigger] self.finalized@[i])
                && state.blocks_map()[self.finalized@[i]].height == i
    }

    /// The next candidate for finalization: the ancestor of the fork choice at the next height.
    pub open(crate) spec fn next_candidate_spec<V>(&self, state: State<V>) -> Option<VoteHash> {
        match fork_choice_of(state, state.panorama_seq()) {
            Some(fc) => ancestor_at(state.blocks_map(), fc, self.finalized@.len() as u64),
            None => None,
        }
    }

    /// Whether the next candidate has a summit that finalizes it under this detector's fault
    /// tolerance threshold.
    pub open(crate) spec fn finalizes<V>(&self, state: State<V>) -> bool {
        match self.next_candidate_spec(state) {
            Some(c) => finalizes_from(
                state,
                c,
                total_weight(state.weight_seq()),
                faulty_weight(state.weight_seq(), state.panorama_seq()),
                self.ftt.0 as int,
                64,
            ),
            None => false,
        }
    }

    /// Creates a detector with the fault tolerance threshold `ftt` that has not finalized
    /// anything yet.
    pub fn new(ftt: Weight) -> (r: Self)
        ensures
            r.ftt_spec() == ftt.0,
            r.history() == Seq::<VoteHash>::empty(),
            r.last_finalized_spec() is None,
    {
        FinalityDetector { last_finalized: None, ftt, finalized: Ghost(Seq::empty()) }
    }

    /// Returns the next batch of values, if any has been finalized since the last call.
    pub fn run<V: Clone>(&mut self, state: &State<V>) -> (r: FinalityResult<V>)
        requires
            state.wf(),
            old(self).wf_for(*state),
            forall|lvl: nat|
                1 <= lvl <= 64 ==> #[trigger] quorum_fits(lvl, total_weight(state.weight_seq()), old(self).ftt_spec() as int),
        ensures
            final(self).wf_for(*state),
            final(self).ftt_spec() == old(self).ftt_spec(),
            (r is FttExceeded) <==> faulty_weight(state.weight_seq(), state.panorama_seq())
                >= old(self).ftt_spec(),
            !(r is Finalized) ==> final(self).history() == old(self).history(),
            (r is Finalized) <==> (faulty_weight(state.weight_seq(), state.panorama_seq()) < old(self).ftt_spec() && old(self).finalizes(*state)),
            r matches FinalityResult::Finalized(values) ==> {
                &&& old(self).next_candidate_spec(*state) matches Some(c)
                &&& final(self).history() == old(self).history().push(c)
                &&& clones(state.blocks_map()[c].values@, values@)
            },
    {
        let total_w = total_weight_exec(state);
        let fault_w = faulty_weight_exec(state);
        if fault_w >= self.ftt.0 {
            return FinalityResult::FttExceeded;
        }
        if let Some(candidate) = self.next_candidate(state) {
            let mut target_lvl: u32 = 64;
            assert forall|lvl: nat| 1 <= lvl <= 64 implies #[trigger] quorum_fits(lvl, total_w as int, self.ftt.0 as int) by {
                assert(quorum_fits(lvl, total_weight(state.weight_seq()), old(self).ftt_spec() as int));
            }
            while target_lvl > 0
                invariant
                    state.wf(),
                    self.wf_for(*state),
                    *self == *old(self),
                    self.next_candidate_spec(*state) == Some(candidate),
                    state.blocks_map().contains_key(candidate),
                    state.blocks_map()[candidate].height == self.finalized@.len(),
                    total_w == total_weight(state.weight_seq()),
                    forall|lvl: nat| 1 <= lvl <= 64 ==> #[trigger] quorum_fits(lvl, total_w as int, self.ftt.0 as int),
                    fault_w == faulty_weight(state.weight_seq(), state.panorama_seq()),
                    fault_w < self.ftt.0,
                    self.finalizes(*state) == finalizes_from(
                        *state,
                        candidate,
                        total_w as int,
                        fault_w as int,
                        self.ftt.0 as int,
                        target_lvl as nat,
                    ),
                    target_lvl <= 64,
                decreases target_lvl,
            {
                let lvl = self.find_summit(target_lvl, total_w, fault_w, candidate, state);
                proof {
                    lemma_summit_count_le(
                        *state,
                        level0_spec(*state, candidate),
                        quorum_at(target_lvl as nat, total_w as int, fault_w as int, self.ftt.0 as int),
                        target_lvl as nat,
                    );
                }
                if lvl == target_lvl {
                    self.last_finalized = Some(candidate);
                    self.finalized = Ghost(self.finalized@.push(candidate));
                    return FinalityResult::Finalized(state.block(&candidate).values.clone());
                }
                target_lvl = lvl;
            }
        }
        FinalityResult::Undecided
    }

    /// Returns the number of levels of the highest summit with a quorum that a `target_lvl`
    /// summit would need for the desired FTT, at most `target_lvl`. If the returned number is
    /// `target_lvl` that means the `candidate` is finalized.
    ///
    /// The faulty validators are considered to be part of any summit, for consistency: the
    /// quorum is lowered by their weight.
    fn find_summit<V>(&self, target_lvl: u32, total_w: u64, fault_w: u64, candidate: VoteHash, state: &State<V>) -> (r: u32)
        requires
            state.wf(),
            state.blocks_map().contains_key(candidate),
            1 <= target_lvl <= 64,
            quorum_fits(target_lvl as nat, total_w as int, self.ftt.0 as int),
        ensures
            r == summit_count(
                *state,
                level0_spec(*state, candidate),
                quorum_at(target_lvl as nat, total_w as int, fault_w as int, self.ftt.0 as int),
                target_lvl as nat,
            ),
    {
        let q = self.quorum_for_lvl(target_lvl, total_w);
        let quorum = if q > fault_w {
            q - fault_w
        } else {
            0
        };
        let ghost start = level0_spec(*state, candidate);
        let mut sec = level0(candidate, state);
        let mut count: u32 = 0;
        while count < target_lvl
            invariant
                state.wf(),
                sec@.len() == state.num_validators(),
                count <= target_lvl,
                summit_count(*state, start, quorum, target_lvl as nat) == count + summit_count(
                    *state,
                    sec@,
                    quorum,
                    (target_lvl - count) as nat,
                ),
            ensures
                summit_count(*state, start, quorum, target_lvl as nat) == count,
            decreases target_lvl - count,
        {
            match next_section(state, &sec, quorum) {
                Some(next) => {
                    sec = next;
                    count = count + 1;
                },
                None => break,
            }
        }
        count
    }

    /// Returns the quorum required by a summit with the specified level and the required FTT.
    fn quorum_for_lvl(&self, lvl: u32, total_w: u64) -> (r: u64)
        requires
            1 <= lvl <= 64,
            quorum_fits(lvl as nat, total_w as int, self.ftt.0 as int),
        ensures
            r == quorum_for(lvl as nat, total_w as int, self.ftt.0 as int),
    {
        // A level-lvl summit with quorum  total_w/2 + t  has relative FTT  2t(1 − 1/2^lvl). So:
        // quorum = total_w / 2 + ftt / 2 / (1 - 1/2^lvl)
        //        = ((2^lvl - 1) total_w + 2^lvl ftt) / (2 * 2^lvl - 2))
        let mut pow_lvl: u128 = 1;
        let mut i: u32 = 0;
        proof {
            lemma2_to64();
        }
        while i < lvl
            invariant
                i <= lvl <= 64,
                pow_lvl == pow2(i as nat),
                pow2(64) == 0x10000000000000000,
            decreases lvl - i,
        {
            proof {
                if i + 1 < 64 {
                    lemma_pow2_strictly_increases((i + 1) as nat, 64);
                }
                lemma_pow2_unfold((i + 1) as nat);
            }
            pow_lvl = pow_lvl * 2;
            i = i + 1;
        }
        proof {
            if lvl < 64 {
                lemma_pow2_strictly_increases(lvl as nat, 64);
            }
            lemma_pow2_strictly_increases(0, lvl as nat);
        }
        let w = total_w as u128;
        let f = self.ftt.0 as u128;
        assert((pow_lvl - 1) * w <= (pow_lvl - 1) * w + pow_lvl * f) by (nonlinear_arith)
            requires
                2 <= pow_lvl,
        ;
        let numerator = (pow_lvl - 1) * w + pow_lvl * f;
        let denominator = 2 * pow_lvl - 2;
        // Since this is a lower bound for the quorum, we round up when dividing.
        let q0 = numerator / denominator;
        let q = if numerator % denominator == 0 {
            q0
        } else {
            q0 + 1
        };
        q as u64
    }

    /// Returns the next candidate for finalization, i.e. the lowest block in the fork choice that
    /// has not been finalized yet.
    fn next_candidate<V>(&self, state: &State<V>) -> (r: Option<VoteHash>)
        requires
            state.wf(),
            self.wf_for(*state),
        ensures
            r == self.next_candidate_spec(*state),
            r matches Some(c) ==> state.blocks_map().contains_key(c)
                && state.blocks_map()[c].height == self.finalized@.len(),
    {
        proof {
            lemma_state_entries_known(*state);
        }
        let fork_choice = match state.fork_choice(state.panorama()) {
            Some(fc) => fc,
            None => return None,
        };
        let height = self.next_height(state);
        let r = state.find_ancestor(fork_choice, height);
        proof {
            if let Some(c) = r {
                lemma_ancestor_height(*state, fork_choice, height);
            }
        }
        r
    }

    /// Returns the height of the next block that will be finalized.
    fn next_height<V>(&self, state: &State<V>) -> (r: u64)
        requires
            state.wf(),
            self.wf_for(*state),
        ensures
            r == self.finalized@.len(),
    {
        match self.last_finalized {
            Some(bhash) => {
                // The number of blocks bounds their heights.
                let _ = state.blocks.len();
                proof {
                    lemma_wf_facts(*state);
                }
                assert(state.blocks_map().contains_key(self.finalized@[self.finalized@.len() - 1]));
                assert(crate::state::block_wf(state.blocks_map(), bhash));
                state.block(&bhash).height + 1
            },
            None => 0,
        }
    }
}

/// Returns the total weight of all validators.
fn total_weight_exec<V>(state: &State<V>) -> (r: u64)
    requires
        state.wf(),
    ensures
        r == total_weight(state.weight_seq()),
{
    let mut sum: u64 = 0;
    let mut i: usize = 0;
    proof {
        lemma_wf_facts(*state);
    }
    while i < state.weights.len()
        invariant
            state.wf(),
            total_weight(state.weight_seq()) <= u64::MAX,
            i <= state.weight_seq().len(),
            sum == weight_upto(state.weight_seq(), i as int),
        decreases state.weight_seq().len() - i,
    {
        proof {
            lemma_weight_bounds(state.weight_seq(), state.panorama_seq(), i as int + 1);
        }
        sum = sum + state.weights[i].0;
        i = i + 1;
    }
    sum
}

/// Returns the total weight of the validators that the state's panorama observes as faulty.
fn faulty_weight_exec<V>(state: &State<V>) -> (r: u64)
    requires
        state.wf(),
    ensures
        r == faulty_weight(state.weight_seq(), state.panorama_seq()),
{
    let mut sum: u64 = 0;
    let mut i: usize = 0;
    proof {
        lemma_wf_facts(*state);
    }
    while i < state.weights.len()
        invariant
            state.wf(),
            total_weight(state.weight_seq()) <= u64::MAX,
            state.panorama_seq().len() == state.weight_seq().len(),
            i <= state.weight_seq().len(),
            sum == faulty_upto(state.weight_seq(), state.panorama_seq(), i as int),
        decreases state.weight_seq().len() - i,
    {
        proof {
            lemma_weight_bounds(state.weight_seq(), state.panorama_seq(), i as int + 1);
        }
        if state.panorama.0[i] == Observation::Faulty {
            sum = sum + state.weights[i].0;
        }
        i = i + 1;
    }
    sum
}

// ---------------------------------------------------------------------------
// Laws.

/// Each block is finalized at most once: the history holds no block twice.
pub proof fn lemma_finalized_once<V>(fd: FinalityDetector, state: State<V>)
    requires
        fd.wf_for(state),
    ensures
        fd.history().no_duplicates(),
{
    assert forall|i: int, j: int|
        0 <= i < fd.history().len() && 0 <= j < fd.history().len() && i != j implies fd.history()[i]
        != fd.history()[j] by {
        assert(state.blocks_map()[fd.history()[i]].height == i);
        assert(state.blocks_map()[fd.history()[j]].height == j);
    }
}

/// A detector stays consistent with its state as the state grows, so the finalized history is
/// only ever extended.
pub proof fn lemma_wf_for_grows<V>(fd: FinalityDetector, s0: State<V>, s1: State<V>)
    requires
        fd.wf_for(s0),
        s0.grows_into(s1),
    ensures
        fd.wf_for(s1),
{
    assert forall|i: int| 0 <= i < fd.history().len() implies s1.blocks_map().contains_key(
        #[trigger] fd.history()[i],
    ) && s1.blocks_map()[fd.history()[i]].height == i by {
        assert(s0.blocks_map().contains_key(fd.history()[i]));
    }
}

/// Once the faulty weight reaches the threshold, it stays there as the state grows: every later
/// run reports `FttExceeded`.
pub proof fn lemma_ftt_exceeded_persists<V>(s0: State<V>, s1: State<V>, ftt: u64)
    requires
        s0.grows_into(s1),
        faulty_weight(s0.weight_seq(), s0.panorama_seq()) >= ftt,
    ensures
        faulty_weight(s1.weight_seq(), s1.panorama_seq()) >= ftt,
{
    lemma_faulty_weight_mono(
        s0.weight_seq(),
        s0.panorama_seq(),
        s1.panorama_seq(),
        s0.weight_seq().len() as int,
    );
}

/// Along states where each grows into the next, as `add_vote` and `add_evidence` ensure, once
/// the faulty weight reaches `ftt` it stays there: every later run with that threshold reports
/// `FttExceeded`.
pub proof fn lemma_ftt_exceeded_along<V>(states: Seq<State<V>>, ftt: u64)
    requires
        states.len() > 0,
        forall|i: int| 0 <= i < states.len() - 1 ==> (#[trigger] states[i]).grows_into(states[i + 1]),
        faulty_weight(states[0].weight_seq(), states[0].panorama_seq()) >= ftt,
    ensures
        forall|i: int|
            0 <= i < states.len() ==> faulty_weight((#[trigger] states[i]).weight_seq(), states[i].panorama_seq()) >= ftt,
    decreases states.len(),
{
    if states.len() > 1 {
        let init = states.drop_last();
        assert forall|i: int| 0 <= i < init.len() - 1 implies (#[trigger] init[i]).grows_into(init[i + 1]) by {
            assert(states[i].grows_into(states[i + 1]));
        }
        lemma_ftt_exceeded_along(init, ftt);
        let k = states.len() - 1;
        assert(faulty_weight(init[k - 1].weight_seq(), init[k - 1].panorama_seq()) >= ftt);
        assert(states[k - 1].grows_into(states[k]));
        lemma_ftt_exceeded_persists(states[k - 1], states[k], ftt);
        assert forall|i: int| 0 <= i < states.len() implies faulty_weight((#[trigger] states[i]).weight_seq(), states[i].panorama_seq()) >= ftt by {
            if i < k {
                assert(init[i] == states[i]);
            }
        }
    }
}

} // verus!
