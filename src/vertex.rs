use vstd::prelude::*;

use crate::vote::{Panorama, ValidatorIndex, VoteHash};

verus! {

/// A validator's secret signing key, provided by the embedding application.
pub trait ValidatorSecret {
    /// Signs `data`.
    fn sign(&self, data: &[u8]) -> Vec<u8>;
}

/// The hash function for votes, provided by the embedding application.
pub trait VoteHasher<V> {
    /// The hash of `wvote`'s content; its `hash` field is not part of the content.
    fn hash_vote(&self, wvote: &WireVote<V>) -> VoteHash;
}

/// A vote as it is sent over the wire, possibly containing a new block.
#[derive(Clone, Debug, PartialEq, Eq)]
pub struct WireVote<V> {
    /// The vote's identifier, a hash of its content.
    pub hash: VoteHash,
    /// What the sender had seen when creating the vote.
    pub panorama: Panorama,
    /// The author.
    pub sender: ValidatorIndex,
    /// The values of a new block, or `None` for a vote without a new block.
    pub values: Option<Vec<V>>,
    /// The position in the sender's swimlane.
    pub seq_number: u64,
}

/// A vote with its sender's signature.
#[derive(Clone, Debug, PartialEq, Eq)]
pub struct SignedWireVote<V> {
    pub wire_vote: WireVote<V>,
    pub signature: Vec<u8>,
}

/// Evidence that a validator is faulty.
#[derive(Clone, Debug, PartialEq, Eq)]
pub enum Evidence<V> {
    /// The validator produced two votes with the same sequence number.
    Equivocation(WireVote<V>, WireVote<V>),
}

/// A dependency of a `Vertex` that can be satisfied by one or more other vertices.
#[derive(Clone, Copy, Debug, PartialEq, Eq, Structural, Hash)]
pub enum Dependency {
    Vote(VoteHash),
    Evidence(ValidatorIndex),
}

/// An element of the protocol state, that might depend on other elements.
///
/// It is the vertex in a directed acyclic graph, whose edges are dependencies.
#[derive(Clone, Debug, PartialEq, Eq)]
pub enum Vertex<V> {
    Vote(SignedWireVote<V>),
    Evidence(Evidence<V>),
}

/// `b` holds a clone of each element of `a`, in order.
pub open spec fn clones<V: Clone>(a: Seq<V>, b: Seq<V>) -> bool {
    &&& a.len() == b.len()
    &&& forall|i: int| 0 <= i < a.len() ==> cloned(#[trigger] a[i], b[i])
}

/// `b` is a clone of the optional values `a`.
pub open spec fn values_cloned<V: Clone>(a: Option<Vec<V>>, b: Option<Vec<V>>) -> bool {
    match (a, b) {
        (None, None) => true,
        (Some(x), Some(y)) => clones(x@, y@),
        _ => false,
    }
}

impl<V: Clone> WireVote<V> {
    /// A copy of the vote, with cloned values.
    pub fn copy(&self) -> (r: WireVote<V>)
        ensures
            r.hash == self.hash,
            r.panorama@ == self.panorama@,
            r.sender == self.sender,
            r.seq_number == self.seq_number,
            values_cloned(self.values, r.values),
    {
        let values = match &self.values {
            Some(vs) => Some(vs.clone()),
            None => None,
        };
        WireVote {
            hash: self.hash,
            panorama: self.panorama.copy(),
            sender: self.sender,
            values,
            seq_number: self.seq_number,
        }
    }
}

/// The little-endian bytes of a hash.
pub open spec fn hash_bytes_spec(h: u64) -> Seq<u8> {
    Seq::new(8, |i: int| ((h >> (8 * i) as u64) & 0xff) as u8)
}

fn hash_bytes(h: u64) -> (r: Vec<u8>)
    ensures
        r@ == hash_bytes_spec(h),
{
    let mut r: Vec<u8> = Vec::new();
    let mut i: u64 = 0;
    while i < 8
        invariant
            i <= 8,
            r@ == hash_bytes_spec(h).take(i as int),
        decreases 8 - i,
    {
        r.push(((h >> (8 * i)) & 0xff) as u8);
        i = i + 1;
        assert(r@ =~= hash_bytes_spec(h).take(i as int));
    }
    assert(hash_bytes_spec(h).take(8) =~= hash_bytes_spec(h));
    r
}

impl<V> Evidence<V> {
    /// The faulty validator.
    pub open spec fn perpetrator_spec(&self) -> ValidatorIndex {
        match self {
            Evidence::Equivocation(vote0, _) => vote0.sender,
        }
    }

    /// Returns the index of the faulty validator.
    pub fn perpetrator(&self) -> (r: ValidatorIndex)
        ensures
            r == self.perpetrator_spec(),
    {
        match self {
            Evidence::Equivocation(vote0, _) => vote0.sender,
        }
    }
}

impl<V> SignedWireVote<V> {
    /// Signs the hash of `wire_vote` with `secret_key`.
    pub fn new<S: ValidatorSecret>(wire_vote: WireVote<V>, secret_key: &S) -> (r: Self)
        ensures
            r.wire_vote == wire_vote,
    {
        let data = hash_bytes(wire_vote.hash);
        let signature = secret_key.sign(data.as_slice());
        SignedWireVote { wire_vote, signature }
    }

    /// The hash of the signed vote.
    pub fn hash(&self) -> (r: VoteHash)
        ensures
            r == self.wire_vote.hash,
    {
        self.wire_vote.hash
    }
}

impl<V> Vertex<V> {
    /// The consensus values a vertex introduces.
    pub open spec fn values_spec(&self) -> Seq<V> {
        match self {
            Vertex::Vote(swv) => match swv.wire_vote.values {
                Some(vs) => vs@,
                None => Seq::empty(),
            },
            Vertex::Evidence(_) => Seq::empty(),
        }
    }

    /// The dependency this vertex satisfies.
    pub open spec fn id_spec(&self) -> Dependency {
        match self {
            Vertex::Vote(swv) => Dependency::Vote(swv.wire_vote.hash),
            Vertex::Evidence(ev) => Dependency::Evidence(ev.perpetrator_spec()),
        }
    }

    /// Returns all consensus values mentioned in this vertex.
    ///
    /// These need to be validated before passing the vertex into the protocol state.
    pub fn values(&self) -> (r: &[V])
        ensures
            r@ == self.values_spec(),
    {
        match self {
            Vertex::Vote(swv) => match &swv.wire_vote.values {
                Some(vs) => vs.as_slice(),
                None => &[],
            },
            Vertex::Evidence(_) => &[],
        }
    }

    /// Returns the dependency that this vertex satisfies.
    pub fn id(&self) -> (r: Dependency)
        ensures
            r == self.id_spec(),
    {
        match self {
            Vertex::Vote(swv) => Dependency::Vote(swv.wire_vote.hash),
            Vertex::Evidence(ev) => Dependency::Evidence(ev.perpetrator()),
        }
    }
}

} // verus!
