use highway::finality_detector::{FinalityDetector, FinalityResult};
use highway::state::{AddVoteError, State};
use highway::vertex::WireVote;
use highway::vote::{Observation, Panorama, ValidatorIndex, Weight};

const ALICE: ValidatorIndex = ValidatorIndex(0);
const BOB: ValidatorIndex = ValidatorIndex(1);
const CAROL: ValidatorIndex = ValidatorIndex(2);

fn h(name: &str) -> u64 {
    name.bytes().fold(0u64, |acc, b| acc * 256 + b as u64)
}

fn to_obs(s: &str) -> Observation {
    match s {
        "_" => Observation::Unseen,
        "F" => Observation::Faulty,
        s => Observation::Correct(h(s)),
    }
}

fn vote(name: &'static str, sender: ValidatorIndex, observations: [&'static str; 3]) -> WireVote<&'static str> {
    WireVote {
        hash: h(name),
        panorama: Panorama(observations.iter().map(|s| to_obs(s)).collect()),
        sender,
        values: None,
        seq_number: name[1..].parse().unwrap(),
    }
}

fn with_value(mut wvote: WireVote<&'static str>, value: &'static str) -> WireVote<&'static str> {
    wvote.values = Some(vec![value]);
    wvote
}

#[test]
fn finality_detector() -> Result<(), AddVoteError<&'static str>> {
    let mut state = State::new(&[Weight(5), Weight(4), Weight(1)]);

    state.add_vote(with_value(vote("b0", BOB, ["_", "_", "_"]), "B0"))?;
    state.add_vote(with_value(vote("c0", CAROL, ["_", "b0", "_"]), "C0"))?;
    state.add_vote(with_value(vote("c1", CAROL, ["_", "b0", "c0"]), "C1"))?;
    state.add_vote(with_value(vote("a0", ALICE, ["_", "b0", "_"]), "A0"))?;
    state.add_vote(with_value(vote("a1", ALICE, ["a0", "b0", "c1"]), "A1"))?;
    state.add_vote(with_value(vote("b1", BOB, ["a0", "b0", "_"]), "B1"))?;

    let mut fd4 = FinalityDetector::new(Weight(4)); // Fault tolerance 4.
    let mut fd6 = FinalityDetector::new(Weight(6)); // Fault tolerance 6.

    // `b0`, `a0` are level 0 for `B0`. `a0`, `b1` are level 1.
    // So the fault tolerance of `B0` is 2 * (9 - 5) * (1 - 1/2) = 4.
    assert_eq!(FinalityResult::Undecided, fd6.run(&state));
    assert_eq!(FinalityResult::Finalized(vec!["B0"]), fd4.run(&state));
    assert_eq!(FinalityResult::Undecided, fd4.run(&state));

    // Adding another level to the summit increases `B0`'s fault tolerance to 6.
    state.add_vote(vote("a2", ALICE, ["a1", "b1", "c1"]))?;
    state.add_vote(vote("b2", BOB, ["a1", "b1", "c1"]))?;
    assert_eq!(FinalityResult::Finalized(vec!["B0"]), fd6.run(&state));
    assert_eq!(FinalityResult::Undecided, fd6.run(&state));

    // If Alice equivocates, the FTT 4 is exceeded, but she counts as being part of any summit,
    // so `A0` and `A1` get FTT 6. (Bob voted for `A1` and against `B1` in `b2`.)
    state.add_vote(vote("e2", ALICE, ["a1", "b1", "c1"]))?;
    assert_eq!(FinalityResult::FttExceeded, fd4.run(&state));
    assert_eq!(FinalityResult::Finalized(vec!["A0"]), fd6.run(&state));
    assert_eq!(FinalityResult::Finalized(vec!["A1"]), fd6.run(&state));
    assert_eq!(FinalityResult::Undecided, fd6.run(&state));
    Ok(())
}

#[test]
fn ftt_exceeded_persists_as_state_grows() -> Result<(), AddVoteError<&'static str>> {
    let mut state = State::new(&[Weight(5), Weight(4), Weight(1)]);
    state.add_vote(with_value(vote("a0", ALICE, ["_", "_", "_"]), "A0"))?;
    state.add_vote(with_value(vote("A0", ALICE, ["_", "_", "_"]), "X0"))?;
    let mut fd = FinalityDetector::new(Weight(5));
    assert_eq!(FinalityResult::FttExceeded, fd.run(&state));
    state.add_vote(with_value(vote("b0", BOB, ["F", "_", "_"]), "B0"))?;
    state.add_vote(vote("c0", CAROL, ["F", "b0", "_"]))?;
    state.add_vote(vote("b1", BOB, ["F", "b0", "c0"]))?;
    assert_eq!(FinalityResult::FttExceeded, fd.run(&state));
    assert_eq!(FinalityResult::FttExceeded, fd.run(&state));
    // A higher threshold is not exceeded by Alice's weight.
    let mut fd6 = FinalityDetector::new(Weight(6));
    assert_ne!(FinalityResult::FttExceeded, fd6.run(&state));
    Ok(())
}

#[test]
fn empty_state_finalizes_nothing() {
    let state: State<&'static str> = State::new(&[Weight(1), Weight(1)]);
    let mut fd = FinalityDetector::new(Weight(1));
    assert_eq!(FinalityResult::Undecided, fd.run(&state));
    // With a threshold of 0, no faults already exceed it.
    let mut fd0 = FinalityDetector::new(Weight(0));
    assert_eq!(FinalityResult::FttExceeded, fd0.run(&state));
}

#[test]
fn unanimous_votes_finalize_each_block_once() -> Result<(), AddVoteError<&'static str>> {
    let mut state = State::new(&[Weight(1), Weight(1), Weight(1)]);
    state.add_vote(with_value(vote("a0", ALICE, ["_", "_", "_"]), "A0"))?;
    state.add_vote(vote("b0", BOB, ["a0", "_", "_"]))?;
    state.add_vote(vote("c0", CAROL, ["a0", "b0", "_"]))?;
    state.add_vote(vote("a1", ALICE, ["a0", "b0", "c0"]))?;
    state.add_vote(vote("b1", BOB, ["a1", "b0", "c0"]))?;
    state.add_vote(vote("c1", CAROL, ["a1", "b1", "c0"]))?;
    let mut fd = FinalityDetector::new(Weight(1));
    assert_eq!(FinalityResult::Finalized(vec!["A0"]), fd.run(&state));
    assert_eq!(FinalityResult::Undecided, fd.run(&state));
    assert_eq!(FinalityResult::Undecided, fd.run(&state));
    Ok(())
}
