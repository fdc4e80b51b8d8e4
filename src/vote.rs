use vstd::prelude::*;

verus! {

/// The identifier of a vote; a block introduced by a vote shares the vote's hash.
pub type VoteHash = u64;

/// The position of a validator in the validator list of one consensus instance.
#[derive(Clone, Copy, Debug, PartialEq, Eq, Structural, Hash, PartialOrd, Ord)]
pub struct ValidatorIndex(pub u32);

/// The voting weight of a validator.
#[derive(Clone, Copy, Debug, PartialEq, Eq, Structural, Hash, PartialOrd, Ord)]
pub struct Weight(pub u64);

/// The observed behavior of a validator at some point in time.
#[derive(Clone, Copy, Debug, PartialEq, Eq, Structural, Hash)]
pub enum Observation {
    /// No vote by that validator was observed yet.
    Unseen,
    /// The validator's latest vote.
    Correct(VoteHash),
    /// The validator has been seen equivocating.
    Faulty,
}

impl Observation {
    /// Returns the hash of the observed vote, if the validator is seen as correct.
    pub fn correct(&self) -> (r: Option<VoteHash>)
        ensures
            r == (match *self {
                Observation::Correct(h) => Some(h),
                _ => None,
            }),
    {
        match self {
            Observation::Correct(h) => Some(*h),
            _ => None,
        }
    }
}

/// The observed behavior of all validators at some point in time, one entry per validator.
#[derive(Clone, Debug, PartialEq, Eq)]
pub struct Panorama(pub Vec<Observation>);

impl View for Panorama {
    type V = Seq<Observation>;

    open spec fn view(&self) -> Seq<Observation> {
        self.0@
    }
}

impl Panorama {
    /// A panorama of `num_validators` entries, none of which has observed anything.
    pub fn new(num_validators: usize) -> (r: Panorama)
        ensures
            r@ == Seq::new(num_validators as nat, |i: int| Observation::Unseen),
    {
        let mut obs: Vec<Observation> = Vec::new();
        let mut i: usize = 0;
        while i < num_validators
            invariant
                i <= num_validators,
                obs@ == Seq::new(i as nat, |j: int| Observation::Unseen),
            decreases num_validators - i,
        {
            obs.push(Observation::Unseen);
            i = i + 1;
        }
        Panorama(obs)
    }

    /// The number of entries.
    pub fn len(&self) -> (r: usize)
        ensures
            r == self@.len(),
    {
        self.0.len()
    }

    /// The observation of validator `idx`.
    pub fn get(&self, idx: ValidatorIndex) -> (r: Observation)
        requires
            (idx.0 as int) < self@.len(),
        ensures
            r == self@[idx.0 as int],
    {
        self.0[idx.0 as usize]
    }

    /// Replaces the observation of validator `idx`.
    pub fn update(&mut self, idx: ValidatorIndex, obs: Observation)
        requires
            (idx.0 as int) < old(self)@.len(),
        ensures
            final(self)@ == old(self)@.update(idx.0 as int, obs),
    {
        self.0.set(idx.0 as usize, obs);
    }

    /// An entry-by-entry copy.
    pub fn copy(&self) -> (r: Panorama)
        ensures
            r@ == self@,
    {
        let mut obs: Vec<Observation> = Vec::new();
        let mut i: usize = 0;
        while i < self.0.len()
            invariant
                i <= self@.len(),
                obs@ == self@.take(i as int),
            decreases self@.len() - i,
        {
            obs.push(self.0[i]);
            i = i + 1;
            assert(obs@ =~= self@.take(i as int));
        }
        assert(self@.take(self@.len() as int) =~= self@);
        Panorama(obs)
    }
}

/// A vote as stored in the protocol state.
#[derive(Clone, Debug, PartialEq, Eq)]
pub struct Vote {
    /// What the sender had seen when creating the vote.
    pub panorama: Panorama,
    /// The position of the vote in its sender's swimlane, starting at 0.
    pub seq_number: u64,
    /// The author of the vote.
    pub sender: ValidatorIndex,
    /// The block this is a vote for: the vote's own new block, or the fork choice of its panorama.
    pub block: VoteHash,
}

} // verus!
