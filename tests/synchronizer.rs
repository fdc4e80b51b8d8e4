use highway::protocol::NodeId;
use highway::synchronizer::{DagSynchronizerState, SynchronizerEffect};
use highway::vertex::{Dependency, SignedWireVote, Vertex, WireVote};
use highway::vote::{Observation, Panorama, ValidatorIndex};

fn vote_vertex(hash: u64) -> Vertex<u32> {
    Vertex::Vote(SignedWireVote {
        wire_vote: WireVote {
            hash,
            panorama: Panorama(vec![Observation::Unseen]),
            sender: ValidatorIndex(0),
            values: Some(vec![1, 2]),
            seq_number: 0,
        },
        signature: vec![],
    })
}

fn requeued_ids(effects: &[SynchronizerEffect<u32>]) -> Vec<Dependency> {
    effects
        .iter()
        .map(|e| match e {
            SynchronizerEffect::RequeueVertex(v) => v.id(),
            _ => panic!("not a requeue"),
        })
        .collect()
}

#[test]
fn vertex_is_released_after_all_dependencies() {
    let mut sync: DagSynchronizerState<u32> = DagSynchronizerState::new();
    let peer = NodeId(4);
    let dep_a = Dependency::Vote(100);
    let dep_b = Dependency::Evidence(ValidatorIndex(2));
    match sync.sync_dependency(peer, dep_a, vote_vertex(7)) {
        SynchronizerEffect::RequestVertex(node, d) => {
            assert_eq!(node, peer);
            assert_eq!(d, dep_a);
        }
        _ => panic!("expected a vertex request"),
    }
    sync.sync_dependency(NodeId(5), dep_b, vote_vertex(7));
    match sync.sync_consensus_values(peer, vec![11], vote_vertex(7)) {
        SynchronizerEffect::RequestConsensusValues(node, values) => {
            assert_eq!(node, peer);
            assert_eq!(values, vec![11]);
        }
        _ => panic!("expected a value request"),
    }
    // Three distinct items: the vertex waits until each has been synchronized.
    assert!(sync.on_vertex_synced(dep_a).is_empty());
    assert!(sync.on_consensus_value_synced(11).is_empty());
    let released = sync.on_vertex_synced(dep_b);
    assert_eq!(requeued_ids(&released), vec![Dependency::Vote(7)]);
    // It is released once only.
    assert!(sync.on_vertex_synced(dep_b).is_empty());
    assert!(sync.on_vertex_synced(dep_a).is_empty());
}

#[test]
fn one_item_releases_all_its_waiting_vertices_in_order() {
    let mut sync: DagSynchronizerState<u32> = DagSynchronizerState::new();
    let dep = Dependency::Vote(1);
    sync.sync_dependency(NodeId(1), dep, vote_vertex(20));
    sync.sync_dependency(NodeId(1), dep, vote_vertex(10));
    sync.sync_dependency(NodeId(1), Dependency::Vote(2), vote_vertex(30));
    let released = sync.on_vertex_synced(dep);
    assert_eq!(requeued_ids(&released), vec![Dependency::Vote(20), Dependency::Vote(10)]);
    let released = sync.on_vertex_synced(Dependency::Vote(2));
    assert_eq!(requeued_ids(&released), vec![Dependency::Vote(30)]);
}

#[test]
fn no_values_means_nothing_to_wait_for() {
    let mut sync: DagSynchronizerState<u32> = DagSynchronizerState::new();
    sync.sync_consensus_values(NodeId(1), vec![], vote_vertex(3));
    assert!(sync.on_consensus_value_synced(0).is_empty());
    sync.sync_consensus_values(NodeId(1), vec![8, 9], vote_vertex(3));
    assert!(sync.on_consensus_value_synced(9).is_empty());
    assert_eq!(requeued_ids(&sync.on_consensus_value_synced(8)), vec![Dependency::Vote(3)]);
}
