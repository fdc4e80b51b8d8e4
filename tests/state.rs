use highway::state::{AddVoteError, State, VoteError};
use highway::vertex::{Dependency, Evidence, WireVote};
use highway::vote::{Observation, Panorama, ValidatorIndex, Weight};

const ALICE: ValidatorIndex = ValidatorIndex(0);
const BOB: ValidatorIndex = ValidatorIndex(1);
const CAROL: ValidatorIndex = ValidatorIndex(2);

/// The identifier of the vote named `name`: its bytes, read as a number.
fn h(name: &str) -> u64 {
    name.bytes().fold(0u64, |acc, b| acc * 256 + b as u64)
}

/// Converts a string to an observation: "F" means faulty, "_" means none, and other strings
/// name a correct vote.
fn to_obs(s: &str) -> Observation {
    match s {
        "_" => Observation::Unseen,
        "F" => Observation::Faulty,
        s => Observation::Correct(h(s)),
    }
}

fn panorama(observations: [&'static str; 3]) -> Panorama {
    Panorama(observations.iter().map(|s| to_obs(s)).collect())
}

/// A vote without a new block. The name is a letter, followed by the sequence number.
fn vote(name: &'static str, sender: ValidatorIndex, observations: [&'static str; 3]) -> WireVote<&'static str> {
    WireVote {
        hash: h(name),
        panorama: panorama(observations),
        sender,
        values: None,
        seq_number: name[1..].parse().unwrap(),
    }
}

fn val(mut wvote: WireVote<&'static str>, values: Vec<&'static str>) -> WireVote<&'static str> {
    wvote.values = Some(values);
    wvote
}

fn vote_err(err: AddVoteError<&'static str>) -> VoteError {
    err.cause
}

#[test]
fn add_vote() -> Result<(), AddVoteError<&'static str>> {
    let mut state = State::new(&[Weight(1), Weight(1), Weight(1)]);

    // Alice: a0 ————— a1
    //                /
    // Bob:   b0 —— b1
    //          \  /
    // Carol:    c0
    state.add_vote(val(vote("a0", ALICE, ["_", "_", "_"]), vec!["a"]))?;
    state.add_vote(val(vote("b0", BOB, ["_", "_", "_"]), vec!["b"]))?;
    state.add_vote(vote("c0", CAROL, ["_", "b0", "_"]))?;
    state.add_vote(vote("b1", BOB, ["_", "b0", "c0"]))?;
    state.add_vote(vote("a1", ALICE, ["a0", "b1", "c0"]))?;

    // Wrong sequence number: Carol hasn't produced c1 yet.
    let opt_err = state.add_vote(vote("c2", CAROL, ["_", "b1", "c0"])).err();
    assert_eq!(Some(VoteError::SequenceNumber), opt_err.map(vote_err));
    // Inconsistent panorama: If you see b1, you have to see c0, too.
    let opt_err = state.add_vote(vote("c1", CAROL, ["_", "b1", "_"])).err();
    assert_eq!(Some(VoteError::Panorama), opt_err.map(vote_err));

    // Alice has not equivocated yet, and not produced message A1.
    let missing = state.missing_dependency(&panorama(["F", "b1", "c0"]));
    assert_eq!(Some(Dependency::Evidence(ALICE)), missing);
    let missing = state.missing_dependency(&panorama(["A1", "b1", "c0"]));
    assert_eq!(Some(Dependency::Vote(h("A1"))), missing);

    // Alice equivocates: A1 doesn't see a1.
    state.add_vote(vote("A1", ALICE, ["a0", "b1", "c0"]))?;
    assert!(state.has_evidence(ALICE));

    let missing = state.missing_dependency(&panorama(["F", "b1", "c0"]));
    assert_eq!(None, missing);
    let missing = state.missing_dependency(&panorama(["A1", "b1", "c0"]));
    assert_eq!(None, missing);

    // Bob can see the equivocation.
    state.add_vote(vote("b2", BOB, ["F", "b1", "c0"]))?;

    // The state's own panorama has been updated correctly.
    assert_eq!(state.panorama(), &panorama(["F", "b2", "c0"]));
    Ok(())
}

#[test]
fn equivocation_records_evidence_naming_both_votes() {
    let mut state = State::new(&[Weight(2), Weight(3)]);
    let two = |o0: &'static str, o1: &'static str| Panorama(vec![to_obs(o0), to_obs(o1)]);
    let mk = |name: &'static str, sender, pan| WireVote {
        hash: h(name),
        panorama: pan,
        sender,
        values: Some(vec![name]),
        seq_number: name[1..].parse().unwrap(),
    };
    assert!(state.add_vote(mk("a0", ALICE, two("_", "_"))).is_ok());
    assert!(!state.has_evidence(ALICE));
    // A second vote with sequence number 0 by Alice, with a different panorama.
    assert!(state.add_vote(mk("b0", BOB, two("_", "_"))).is_ok());
    assert!(state.add_vote(mk("A0", ALICE, two("_", "b0"))).is_ok());
    assert!(state.has_evidence(ALICE));
    assert_eq!(state.panorama().0[0], Observation::Faulty);
    match state.opt_evidence(ALICE) {
        Some(Evidence::Equivocation(w0, w1)) => {
            assert_eq!(w0.hash, h("a0"));
            assert_eq!(w1.hash, h("A0"));
            assert_eq!(w0.seq_number, 0);
            assert_eq!(w1.seq_number, 0);
            assert_eq!(w0.values, Some(vec!["a0"]));
        }
        None => panic!("no evidence"),
    }
    assert!(!state.has_evidence(BOB));
}

#[test]
fn sequence_numbers_must_be_contiguous() {
    let mut state = State::new(&[Weight(1), Weight(1), Weight(1)]);
    let first = vote("a1", ALICE, ["_", "_", "_"]);
    let err = state.add_vote(val(first, vec!["x"])).err().map(vote_err);
    assert_eq!(err, Some(VoteError::SequenceNumber));
    assert!(!state.has_vote(&h("a1")));
    assert!(state.add_vote(val(vote("a0", ALICE, ["_", "_", "_"]), vec!["x"])).is_ok());
    let err = state.add_vote(vote("a2", ALICE, ["a0", "_", "_"])).err().map(vote_err);
    assert_eq!(err, Some(VoteError::SequenceNumber));
    assert!(state.add_vote(vote("a1", ALICE, ["a0", "_", "_"])).is_ok());
    assert_eq!(state.vote(&h("a1")).seq_number, 1);
    assert_eq!(state.panorama().0[0], Observation::Correct(h("a1")));
}

#[test]
fn ballot_without_correct_observation_is_invalid() {
    let mut state = State::new(&[Weight(1), Weight(1), Weight(1)]);
    let err = state.add_vote(vote("a0", ALICE, ["_", "_", "_"])).err().map(vote_err);
    assert_eq!(err, Some(VoteError::Panorama));
    // A panorama of the wrong length is inconsistent too.
    let mut short = val(vote("a0", ALICE, ["_", "_", "_"]), vec!["x"]);
    short.panorama = Panorama(vec![Observation::Unseen]);
    assert_eq!(state.add_vote(short).err().map(vote_err), Some(VoteError::Panorama));
    // As is a sender outside the validator list.
    let stranger = val(vote("d0", ValidatorIndex(3), ["_", "_", "_"]), vec!["x"]);
    assert_eq!(state.add_vote(stranger).err().map(vote_err), Some(VoteError::Panorama));
    // Or a panorama naming an unknown vote.
    let unknown = vote("a0", ALICE, ["_", "q0", "_"]);
    assert_eq!(state.add_vote(unknown).err().map(vote_err), Some(VoteError::Panorama));
}

#[test]
fn blocks_and_wire_votes() {
    let mut state = State::new(&[Weight(1), Weight(1), Weight(1)]);
    assert!(state.add_vote(val(vote("b0", BOB, ["_", "_", "_"]), vec!["B0"])).is_ok());
    assert!(state.add_vote(val(vote("c0", CAROL, ["_", "b0", "_"]), vec!["C0", "C1"])).is_ok());
    assert!(state.add_vote(vote("a0", ALICE, ["_", "b0", "c0"])).is_ok());
    let b0 = state.block(&h("b0"));
    assert_eq!(b0.parent, None);
    assert_eq!(b0.height, 0);
    let c0 = state.block(&h("c0"));
    assert_eq!(c0.parent, Some(h("b0")));
    assert_eq!(c0.height, 1);
    assert_eq!(c0.values, vec!["C0", "C1"]);
    // A vote without values introduces no block, and votes for the fork choice: the tip of
    // the chain b0 — c0 that both Bob and Carol support.
    assert!(state.opt_block(&h("a0")).is_none());
    assert_eq!(state.vote(&h("a0")).block, h("c0"));
    let w = state.wire_vote(h("c0")).unwrap();
    assert_eq!(w.hash, h("c0"));
    assert_eq!(w.sender, CAROL);
    assert_eq!(w.values, Some(vec!["C0", "C1"]));
    assert_eq!(w.panorama, panorama(["_", "b0", "_"]));
    assert_eq!(state.wire_vote(h("a0")).unwrap().values, None);
    assert!(state.wire_vote(h("z9")).is_none());
}

#[test]
fn fork_choice_follows_the_heavier_branch() {
    let mut state = State::new(&[Weight(1), Weight(3), Weight(1)]);
    assert!(state.add_vote(val(vote("a0", ALICE, ["_", "_", "_"]), vec!["A0"])).is_ok());
    // Two children of a0: b0 by Bob (weight 3) and c0 by Carol (weight 1).
    assert!(state.add_vote(val(vote("b0", BOB, ["a0", "_", "_"]), vec!["B0"])).is_ok());
    assert!(state.add_vote(val(vote("c0", CAROL, ["a0", "_", "_"]), vec!["C0"])).is_ok());
    // Alice's first correct observation is her own vote, but the heavier branch is Bob's.
    assert!(state.add_vote(vote("a1", ALICE, ["a0", "b0", "c0"])).is_ok());
    assert_eq!(state.vote(&h("a1")).block, h("b0"));
    // A new block on that panorama extends b0.
    assert!(state.add_vote(val(vote("c1", CAROL, ["a1", "b0", "c0"]), vec!["C1"])).is_ok());
    assert_eq!(state.block(&h("c1")).parent, Some(h("b0")));
    assert_eq!(state.block(&h("c1")).height, 2);
}

#[test]
fn known_vote_is_not_added_twice() {
    let mut state = State::new(&[Weight(1), Weight(1), Weight(1)]);
    assert!(state.add_vote(val(vote("a0", ALICE, ["_", "_", "_"]), vec!["x"])).is_ok());
    assert!(state.add_vote(val(vote("a0", ALICE, ["_", "_", "_"]), vec!["x"])).is_ok());
    assert!(!state.has_evidence(ALICE));
    assert_eq!(state.panorama().0[0], Observation::Correct(h("a0")));
}

#[test]
fn different_vote_under_known_hash_is_refused() {
    let mut state = State::new(&[Weight(1), Weight(1), Weight(1)]);
    assert!(state.add_vote(val(vote("a0", ALICE, ["_", "_", "_"]), vec!["x"])).is_ok());
    assert!(state.add_vote(val(vote("b0", BOB, ["_", "_", "_"]), vec!["y"])).is_ok());
    // Bob's vote under Alice's hash.
    let mut forged = val(vote("b1", BOB, ["_", "b0", "_"]), vec!["z"]);
    forged.hash = h("a0");
    assert_eq!(state.add_vote(forged).err().map(vote_err), Some(VoteError::Hash));
    // A known hash with a wrong sequence number still reports the sequence number.
    let mut wrong = val(vote("a0", ALICE, ["_", "_", "_"]), vec!["x"]);
    wrong.seq_number = 4;
    assert_eq!(state.add_vote(wrong).err().map(vote_err), Some(VoteError::SequenceNumber));
    assert_eq!(state.panorama(), &panorama(["a0", "b0", "_"]));
}

#[test]
fn add_evidence_marks_faulty() {
    let mut state = State::new(&[Weight(1), Weight(1), Weight(1)]);
    let w0 = val(vote("c0", CAROL, ["_", "_", "_"]), vec!["x"]);
    let w1 = val(vote("C0", CAROL, ["_", "_", "_"]), vec!["y"]);
    state.add_evidence(Evidence::Equivocation(w0, w1));
    assert!(state.has_evidence(CAROL));
    assert!(state.opt_evidence(CAROL).is_some());
    assert!(!state.has_evidence(ValidatorIndex(7)));
    assert_eq!(state.panorama(), &panorama(["_", "_", "F"]));
}

#[test]
fn leader_follows_weights() {
    let state: State<u8> = State::new(&[Weight(5), Weight(4), Weight(1)]);
    assert_eq!(state.leader(0), Some(ALICE));
    assert_eq!(state.leader(4), Some(ALICE));
    assert_eq!(state.leader(5), Some(BOB));
    assert_eq!(state.leader(8), Some(BOB));
    assert_eq!(state.leader(9), Some(CAROL));
    assert_eq!(state.leader(10), Some(ALICE));
    assert_eq!(state.leader(29), Some(CAROL));
    let empty: State<u8> = State::new(&[Weight(0), Weight(0)]);
    assert_eq!(empty.leader(3), None);
}
