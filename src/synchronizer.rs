use vstd::prelude::*;

use crate::protocol::NodeId;
use crate::vertex::{Dependency, Vertex};

verus! {

/// Something a pending vertex waits for: another vertex, or a consensus value, identified by
/// its hash.
#[derive(Clone, Copy, Debug, PartialEq, Eq, Structural, Hash)]
pub enum SyncItem {
    Vertex(Dependency),
    Value(u64),
}

/// An effect for the reactor to carry out.
///
/// The same item may be requested several times, from different nodes: the retrieval layer
/// collects them as alternative sources.
#[derive(Debug)]
pub enum SynchronizerEffect<V> {
    /// Download the missing vertex from the node.
    RequestVertex(NodeId, Dependency),
    /// Download the missing consensus values from the node.
    RequestConsensusValues(NodeId, Vec<u64>),
    /// Requeue a vertex whose dependencies have all been synchronized.
    RequeueVertex(Vertex<V>),
}

/// A vertex waiting for items.
pub struct Pending<V> {
    pub id: Dependency,
    pub vertex: Vertex<V>,
    pub awaiting: Vec<SyncItem>,
}

/// What a pending vertex is: its identifier, the vertex, and what it waits for.
pub struct PendingView<V> {
    pub id: Dependency,
    pub vertex: Vertex<V>,
    pub awaiting: Seq<SyncItem>,
}

impl<V> Pending<V> {
    pub open spec fn view(&self) -> PendingView<V> {
        PendingView { id: self.id, vertex: self.vertex, awaiting: self.awaiting@ }
    }
}

/// `s` without any occurrence of `d`.
pub open spec fn without(s: Seq<SyncItem>, d: SyncItem) -> Seq<SyncItem>
    decreases s.len(),
{
    if s.len() == 0 {
        s
    } else if s.last() == d {
        without(s.drop_last(), d)
    } else {
        without(s.drop_last(), d).push(s.last())
    }
}

/// `s` extended by the items of `ds` that it does not hold yet.
pub open spec fn with_all(s: Seq<SyncItem>, ds: Seq<SyncItem>) -> Seq<SyncItem>
    decreases ds.len(),
{
    if ds.len() == 0 {
        s
    } else {
        let prev = with_all(s, ds.drop_last());
        if prev.contains(ds.last()) {
            prev
        } else {
            prev.push(ds.last())
        }
    }
}

/// The pending vertices that still wait for something once `d` is synchronized, each without
/// `d`.
pub open spec fn still_pending<V>(p: Seq<PendingView<V>>, d: SyncItem) -> Seq<PendingView<V>>
    decreases p.len(),
{
    if p.len() == 0 {
        Seq::empty()
    } else {
        let prev = still_pending(p.drop_last(), d);
        let e = p.last();
        let rest = without(e.awaiting, d);
        if rest.len() == 0 {
            prev
        } else {
            prev.push(PendingView { id: e.id, vertex: e.vertex, awaiting: rest })
        }
    }
}

/// The pending vertices that wait for nothing but `d`, in order.
pub open spec fn released<V>(p: Seq<PendingView<V>>, d: SyncItem) -> Seq<Vertex<V>>
    decreases p.len(),
{
    if p.len() == 0 {
        Seq::empty()
    } else {
        let prev = released(p.drop_last(), d);
        if without(p.last().awaiting, d).len() == 0 {
            prev.push(p.last().vertex)
        } else {
            prev
        }
    }
}

/// Tracks which vertices wait for which vertices and consensus values, and releases each vertex
/// once everything it waits for has been synchronized.
pub struct DagSynchronizerState<V> {
    pub(crate) pending: Vec<Pending<V>>,
}

impl<V> DagSynchronizerState<V> {
    /// The pending vertices, in the order they were first tracked.
    pub open(crate) spec fn view(&self) -> Seq<PendingView<V>> {
        views(self.pending@)
    }

    /// Each vertex is tracked once, under its own identifier, and waits for something.
    pub open(crate) spec fn wf(&self) -> bool {
        &&& forall|i: int, j: int|
            0 <= i < j < self@.len() ==> (#[trigger] self@[i]).id != (#[trigger] self@[j]).id
        &&& forall|i: int| 0 <= i < self@.len() ==> (#[trigger] self@[i]).awaiting.len() > 0
        &&& forall|i: int| 0 <= i < self@.len() ==> (#[trigger] self@[i]).id == self@[i].vertex.id_spec()
    }

    /// A synchronizer with nothing pending.
    pub fn new() -> (r: Self)
        ensures
            r.wf(),
            r@ == Seq::<PendingView<V>>::empty(),
    {
        let r = DagSynchronizerState { pending: Vec::new() };
        assert(r@ =~= Seq::<PendingView<V>>::empty());
        r
    }

    fn remove_item(awaiting: &Vec<SyncItem>, d: SyncItem) -> (r: Vec<SyncItem>)
        ensures
            r@ == without(awaiting@, d),
    {
        let mut r: Vec<SyncItem> = Vec::new();
        let mut i: usize = 0;
        while i < awaiting.len()
            invariant
                i <= awaiting@.len(),
                r@ == without(awaiting@.take(i as int), d),
            decreases awaiting@.len() - i,
        {
            assert(awaiting@.take(i as int + 1).drop_last() =~= awaiting@.take(i as int));
            if awaiting[i] != d {
                r.push(awaiting[i]);
            }
            i = i + 1;
        }
        assert(awaiting@.take(awaiting@.len() as int) =~= awaiting@);
        r
    }

    fn add_items(awaiting: &mut Vec<SyncItem>, items: &Vec<SyncItem>)
        ensures
            final(awaiting)@ == with_all(old(awaiting)@, items@),
    {
        let ghost start = awaiting@;
        let mut i: usize = 0;
        while i < items.len()
            invariant
                i <= items@.len(),
                awaiting@ == with_all(start, items@.take(i as int)),
            decreases items@.len() - i,
        {
            assert(items@.take(i as int + 1).drop_last() =~= items@.take(i as int));
            let d = items[i];
            let mut found = false;
            let mut k: usize = 0;
            while k < awaiting.len()
                invariant
                    k <= awaiting@.len(),
                    found <==> awaiting@.take(k as int).contains(d),
                decreases awaiting@.len() - k,
            {
                if awaiting[k] == d {
                    found = true;
                }
                proof {
                    let t0 = awaiting@.take(k as int);
                    let t1 = awaiting@.take(k as int + 1);
                    assert(t1 =~= t0.push(awaiting@[k as int]));
                    if t0.contains(d) {
                        let j = choose|j: int| 0 <= j < t0.len() && t0[j] == d;
                        assert(t1[j] == d);
                    }
                    if awaiting@[k as int] == d {
                        assert(t1[k as int] == d);
                    }
                    if t1.contains(d) {
                        let j = choose|j: int| 0 <= j < t1.len() && t1[j] == d;
                        if j < k {
                            assert(t0[j] == d);
                        }
                    }
                }
                k = k + 1;
            }
            assert(awaiting@.take(awaiting@.len() as int) =~= awaiting@);
            if !found {
                awaiting.push(d);
            }
            i = i + 1;
        }
        assert(items@.take(items@.len() as int) =~= items@);
    }

    /// Records that `vertex` waits for `items`. A vertex already pending under the same
    /// identifier keeps its first copy and waits for the new items too.
    fn track(&mut self, items: Vec<SyncItem>, vertex: Vertex<V>)
        requires
            old(self).wf(),
            items@.len() > 0,
        ensures
            final(self).wf(),
            match find_pending(old(self)@, vertex.id_spec()) {
                Some(k) => final(self)@ == old(self)@.update(
                    k,
                    PendingView {
                        id: old(self)@[k].id,
                        vertex: old(self)@[k].vertex,
                        awaiting: with_all(old(self)@[k].awaiting, items@),
                    },
                ),
                None => final(self)@ == old(self)@.push(
                    PendingView { id: vertex.id_spec(), vertex, awaiting: items@ },
                ),
            },
    {
        let id = vertex.id();
        let mut k: usize = 0;
        while k < self.pending.len()
            invariant
                self.wf(),
                *self == *old(self),
                id == vertex.id_spec(),
                k <= self@.len(),
                forall|j: int| 0 <= j < k ==> (#[trigger] self@[j]).id != id,
            decreases self@.len() - k,
        {
            if self.pending[k].id == id {
                proof {
                    lemma_find_pending(self@, id, k as int);
                }
                let mut entry = self.pending.remove(k);
                Self::add_items(&mut entry.awaiting, &items);
                proof {
                    lemma_with_all_grows(old(self)@[k as int].awaiting, items@);
                }
                self.pending.insert(k, entry);
                assert(self@ =~= old(self)@.update(
                    k as int,
                    PendingView {
                        id: old(self)@[k as int].id,
                        vertex: old(self)@[k as int].vertex,
                        awaiting: with_all(old(self)@[k as int].awaiting, items@),
                    },
                ));
                return;
            }
            k = k + 1;
        }
        proof {
            lemma_find_pending_none(self@, id);
        }
        self.pending.push(Pending { id, vertex, awaiting: items });
        assert(self@ =~= old(self)@.push(PendingView { id, vertex, awaiting: items@ }));
    }

    /// Releases every vertex that waits for nothing but `d`, and removes `d` from what the
    /// others wait for.
    fn complete(&mut self, d: SyncItem) -> (r: Vec<SynchronizerEffect<V>>)
        requires
            old(self).wf(),
        ensures
            final(self).wf(),
            final(self)@ == still_pending(old(self)@, d),
            r@ == requeued(released(old(self)@, d)),
    {
        let ghost p0 = self@;
        let mut rest: Vec<Pending<V>> = Vec::new();
        std::mem::swap(&mut rest, &mut self.pending);
        let mut kept: Vec<Pending<V>> = Vec::new();
        let mut effects: Vec<SynchronizerEffect<V>> = Vec::new();
        let ghost mut i: int = 0;
        assert(p0.skip(0) =~= p0);
        while rest.len() > 0
            invariant
                0 <= i <= p0.len(),
                views(rest@) == p0.skip(i),
                views(kept@) == still_pending(p0.take(i), d),
                effects@ == requeued(released(p0.take(i), d)),
                forall|a: int, b: int| 0 <= a < b < p0.len() ==> (#[trigger] p0[a]).id != (#[trigger] p0[b]).id,
                forall|a: int| 0 <= a < p0.len() ==> (#[trigger] p0[a]).awaiting.len() > 0,
                forall|a: int| 0 <= a < p0.len() ==> (#[trigger] p0[a]).id == p0[a].vertex.id_spec(),
                forall|a: int| 0 <= a < kept@.len() ==> (#[trigger] kept@[a]).id == kept@[a].vertex.id_spec(),
                forall|a: int| 0 <= a < kept@.len() ==> exists|j: int| 0 <= j < i && (#[trigger] p0[j]).id == (#[trigger] kept@[a]).id,
                forall|a: int, b: int| 0 <= a < b < kept@.len() ==> (#[trigger] kept@[a]).id != (#[trigger] kept@[b]).id,
                forall|a: int| 0 <= a < kept@.len() ==> (#[trigger] kept@[a]).awaiting@.len() > 0,
            decreases rest@.len(),
        {
            let ghost r0 = rest@;
            assert(views(r0).len() == r0.len());
            assert(p0.skip(i).len() == p0.len() - i);
            assert(views(r0)[0] == p0.skip(i)[0]);
            assert(views(r0)[0] == p0[i]);
            let e = rest.remove(0);
            assert forall|j: int| 0 <= j < rest@.len() implies views(rest@)[j] == p0.skip(i + 1)[j] by {
                assert(rest@[j] == r0[j + 1]);
                assert(views(r0)[j + 1] == p0.skip(i)[j + 1]);
            }
            assert(views(rest@) =~= p0.skip(i + 1));
            let Pending { id, vertex, awaiting } = e;
            let remaining = Self::remove_item(&awaiting, d);
            assert(p0.take(i + 1).drop_last() =~= p0.take(i));
            assert(p0.take(i + 1).last() == p0[i]);
            if remaining.len() == 0 {
                effects.push(SynchronizerEffect::RequeueVertex(vertex));
                assert(requeued(released(p0.take(i + 1), d)) =~= requeued(released(p0.take(i), d)).push(
                    SynchronizerEffect::RequeueVertex(p0[i].vertex),
                ));
            } else {
                let ghost kept0 = kept@;
                kept.push(Pending { id, vertex, awaiting: remaining });
                assert(views(kept@) =~= views(kept0).push(views(kept@).last()));
                proof {
                    assert forall|a: int| 0 <= a < kept0.len() implies (#[trigger] kept@[a]).id != id by {
                        let j = choose|j: int| 0 <= j < i && (#[trigger] p0[j]).id == kept0[a].id;
                        assert(p0[j].id != p0[i].id);
                    }
                    assert forall|a: int| 0 <= a < kept@.len() implies exists|j: int|
                        0 <= j < i + 1 && (#[trigger] p0[j]).id == (#[trigger] kept@[a]).id by {
                        if a < kept0.len() {
                            let j = choose|j: int| 0 <= j < i && (#[trigger] p0[j]).id == kept0[a].id;
                            assert(p0[j].id == kept@[a].id);
                        } else {
                            assert(p0[i].id == kept@[a].id);
                        }
                    }
                }
            }
            proof {
                i = i + 1;
            }
        }
        assert(p0.take(i) =~= p0);
        self.pending = kept;
        proof {
            assert forall|a: int, b: int| 0 <= a < b < self@.len() implies (#[trigger] self@[a]).id != (#[trigger] self@[b]).id by {
                assert(self@[a].id == self.pending@[a].id);
                assert(self@[b].id == self.pending@[b].id);
            }
        }
        effects
    }

    /// Records that `new_vertex` waits for `missing_dependency`, and asks for it from `node`,
    /// the node that proposed the vertex.
    pub fn sync_dependency(&mut self, node: NodeId, missing_dependency: Dependency, new_vertex: Vertex<V>) -> (r: SynchronizerEffect<V>)
        requires
            old(self).wf(),
        ensures
            final(self).wf(),
            r == SynchronizerEffect::<V>::RequestVertex(node, missing_dependency),
            match find_pending(old(self)@, new_vertex.id_spec()) {
                Some(k) => final(self)@ == old(self)@.update(
                    k,
                    PendingView {
                        id: old(self)@[k].id,
                        vertex: old(self)@[k].vertex,
                        awaiting: with_all(old(self)@[k].awaiting, seq![SyncItem::Vertex(missing_dependency)]),
                    },
                ),
                None => final(self)@ == old(self)@.push(
                    PendingView {
                        id: new_vertex.id_spec(),
                        vertex: new_vertex,
                        awaiting: seq![SyncItem::Vertex(missing_dependency)],
                    },
                ),
            },
    {
        let mut items: Vec<SyncItem> = Vec::new();
        items.push(SyncItem::Vertex(missing_dependency));
        assert(items@ =~= seq![SyncItem::Vertex(missing_dependency)]);
        self.track(items, new_vertex);
        SynchronizerEffect::RequestVertex(node, missing_dependency)
    }

    /// Records that `v` waits for the consensus values `c`, and asks for them from `node`, the
    /// node that proposed the vertex. With no values, nothing is recorded.
    pub fn sync_consensus_values(&mut self, node: NodeId, c: Vec<u64>, v: Vertex<V>) -> (r: SynchronizerEffect<V>)
        requires
            old(self).wf(),
        ensures
            final(self).wf(),
            r == SynchronizerEffect::<V>::RequestConsensusValues(node, c),
            c@.len() == 0 ==> final(self)@ == old(self)@,
            c@.len() > 0 ==> match find_pending(old(self)@, v.id_spec()) {
                Some(k) => final(self)@ == old(self)@.update(
                    k,
                    PendingView {
                        id: old(self)@[k].id,
                        vertex: old(self)@[k].vertex,
                        awaiting: with_all(old(self)@[k].awaiting, value_items(c@)),
                    },
                ),
                None => final(self)@ == old(self)@.push(
                    PendingView { id: v.id_spec(), vertex: v, awaiting: value_items(c@) },
                ),
            },
    {
        let mut items: Vec<SyncItem> = Vec::new();
        let mut i: usize = 0;
        while i < c.len()
            invariant
                i <= c@.len(),
                items@ == value_items(c@.take(i as int)),
            decreases c@.len() - i,
        {
            items.push(SyncItem::Value(c[i]));
            i = i + 1;
            assert(items@ =~= value_items(c@.take(i as int)));
        }
        assert(c@.take(c@.len() as int) =~= c@);
        if items.len() > 0 {
            self.track(items, v);
        }
        SynchronizerEffect::RequestConsensusValues(node, c)
    }

    /// Must be called once the vertex `v` has been added to the protocol state: requeues the
    /// vertices that waited for nothing else, and removes `v` from what the others wait for.
    pub fn on_vertex_synced(&mut self, v: Dependency) -> (r: Vec<SynchronizerEffect<V>>)
        requires
            old(self).wf(),
        ensures
            final(self).wf(),
            final(self)@ == still_pending(old(self)@, SyncItem::Vertex(v)),
            r@ == requeued(released(old(self)@, SyncItem::Vertex(v))),
    {
        self.complete(SyncItem::Vertex(v))
    }

    /// Must be called once the consensus value `c` is available: requeues the vertices that
    /// waited for nothing else, and removes `c` from what the others wait for.
    pub fn on_consensus_value_synced(&mut self, c: u64) -> (r: Vec<SynchronizerEffect<V>>)
        requires
            old(self).wf(),
        ensures
            final(self).wf(),
            final(self)@ == still_pending(old(self)@, SyncItem::Value(c)),
            r@ == requeued(released(old(self)@, SyncItem::Value(c))),
    {
        self.complete(SyncItem::Value(c))
    }
}

/// The items for the consensus values `c`.
pub open spec fn value_items(c: Seq<u64>) -> Seq<SyncItem> {
    c.map_values(|x: u64| SyncItem::Value(x))
}

/// The requeue effects for the vertices `vs`, in order.
pub open spec fn requeued<V>(vs: Seq<Vertex<V>>) -> Seq<SynchronizerEffect<V>> {
    vs.map_values(|v: Vertex<V>| SynchronizerEffect::RequeueVertex(v))
}

/// The views of pending entries.
pub open spec fn views<V>(s: Seq<Pending<V>>) -> Seq<PendingView<V>> {
    s.map_values(|p: Pending<V>| p.view())
}

/// The position of the pending vertex with identifier `id`, if any.
pub open spec fn find_pending<V>(p: Seq<PendingView<V>>, id: Dependency) -> Option<int> {
    if exists|k: int| 0 <= k < p.len() && (#[trigger] p[k]).id == id {
        Some(choose|k: int| 0 <= k < p.len() && (#[trigger] p[k]).id == id)
    } else {
        None
    }
}

proof fn lemma_find_pending<V>(p: Seq<PendingView<V>>, id: Dependency, k: int)
    requires
        forall|i: int, j: int| 0 <= i < j < p.len() ==> (#[trigger] p[i]).id != (#[trigger] p[j]).id,
        0 <= k < p.len(),
        p[k].id == id,
    ensures
        find_pending(p, id) == Some(k),
{
    let c = choose|c: int| 0 <= c < p.len() && (#[trigger] p[c]).id == id;
    if c < k {
        assert(p[c].id != p[k].id);
    } else if c > k {
        assert(p[k].id != p[c].id);
    }
}

proof fn lemma_find_pending_none<V>(p: Seq<PendingView<V>>, id: Dependency)
    requires
        forall|j: int| 0 <= j < p.len() ==> (#[trigger] p[j]).id != id,
    ensures
        find_pending(p, id) is None,
{
}

proof fn lemma_with_all_grows(s: Seq<SyncItem>, ds: Seq<SyncItem>)
    ensures
        with_all(s, ds).len() >= s.len(),
    decreases ds.len(),
{
    if ds.len() > 0 {
        lemma_with_all_grows(s, ds.drop_last());
    }
}

/// A vertex is released when `d` is synchronized only if `d` is the last thing it waits for;
/// each other pending vertex keeps waiting for everything else.
pub proof fn lemma_release_only_when_complete<V>(p: Seq<PendingView<V>>, d: SyncItem, k: int)
    requires
        0 <= k < p.len(),
    ensures
        without(p[k].awaiting, d).len() == 0 ==> forall|x: SyncItem| #[trigger] p[k].awaiting.contains(x) ==> x == d,
        without(p[k].awaiting, d).len() > 0 ==> exists|x: SyncItem| #[trigger] p[k].awaiting.contains(x) && x != d,
{
    lemma_without_contains(p[k].awaiting, d);
    if without(p[k].awaiting, d).len() == 0 {
        assert forall|x: SyncItem| #[trigger] p[k].awaiting.contains(x) implies x == d by {
            if x != d {
                assert(without(p[k].awaiting, d).contains(x));
            }
        }
    }
    if without(p[k].awaiting, d).len() > 0 {
        let x = without(p[k].awaiting, d)[0];
        assert(without(p[k].awaiting, d).contains(x));
    }
}

/// `without(s, d)` holds exactly the items of `s` other than `d`.
pub proof fn lemma_without_contains(s: Seq<SyncItem>, d: SyncItem)
    ensures
        forall|x: SyncItem| #[trigger] without(s, d).contains(x) <==> s.contains(x) && x != d,
    decreases s.len(),
{
    if s.len() > 0 {
        let s0 = s.drop_last();
        let l = s.last();
        lemma_without_contains(s0, d);
        let w0 = without(s0, d);
        let w = without(s, d);
        assert forall|x: SyncItem| w.contains(x) implies s.contains(x) && x != d by {
            let j = choose|j: int| 0 <= j < w.len() && w[j] == x;
            if j < w0.len() {
                assert(w0[j] == x);
                assert(w0.contains(x));
                let i = choose|i: int| 0 <= i < s0.len() && s0[i] == x;
                assert(s[i] == x);
            } else {
                assert(s[s.len() - 1] == x);
            }
        }
        assert forall|x: SyncItem| s.contains(x) && x != d implies w.contains(x) by {
            let i = choose|i: int| 0 <= i < s.len() && s[i] == x;
            if i < s.len() - 1 {
                assert(s0[i] == x);
                assert(s0.contains(x));
                assert(w0.contains(x));
                let j = choose|j: int| 0 <= j < w0.len() && w0[j] == x;
                assert(w[j] == x);
            } else {
                assert(w[w.len() - 1] == x);
            }
        }
    }
}

// ---------------------------------------------------------------------------
// Release over a sequence of synchronized items.

/// Identifiers are unique, and each is its vertex's own.
pub open spec fn well_tracked<V>(p: Seq<PendingView<V>>) -> bool {
    &&& forall|i: int, j: int| 0 <= i < j < p.len() ==> (#[trigger] p[i]).id != (#[trigger] p[j]).id
    &&& forall|i: int| 0 <= i < p.len() ==> (#[trigger] p[i]).id == p[i].vertex.id_spec()
}

/// The vertex `v` is pending under `x`, waiting for `a`.
pub open spec fn pending_with<V>(p: Seq<PendingView<V>>, x: Dependency, v: Vertex<V>, a: Seq<SyncItem>) -> bool {
    exists|k: int| 0 <= k < p.len() && (#[trigger] p[k]).id == x && p[k].vertex == v && p[k].awaiting == a
}

/// No vertex is pending under `x`.
pub open spec fn not_pending<V>(p: Seq<PendingView<V>>, x: Dependency) -> bool {
    forall|k: int| 0 <= k < p.len() ==> (#[trigger] p[k]).id != x
}

/// How many of the vertices `rs` have the identifier `x`.
pub open spec fn count_released<V>(rs: Seq<Vertex<V>>, x: Dependency) -> nat
    decreases rs.len(),
{
    if rs.len() == 0 {
        0
    } else {
        count_released(rs.drop_last(), x) + if rs.last().id_spec() == x {
            1nat
        } else {
            0nat
        }
    }
}

/// `a` without every item of `ds`, removed in order.
pub open spec fn without_all(a: Seq<SyncItem>, ds: Seq<SyncItem>) -> Seq<SyncItem>
    decreases ds.len(),
{
    if ds.len() == 0 {
        a
    } else {
        without(without_all(a, ds.drop_last()), ds.last())
    }
}

/// How many vertices with identifier `x` the syncs `ds`, starting from the pending lists
/// `views`, release in all.
pub open spec fn released_total<V>(views: Seq<Seq<PendingView<V>>>, ds: Seq<SyncItem>, x: Dependency) -> nat
    decreases ds.len(),
{
    if ds.len() == 0 {
        0
    } else {
        released_total(views, ds.drop_last(), x) + count_released(
            released(views[ds.len() - 1], ds.last()),
            x,
        )
    }
}

proof fn lemma_well_tracked_prefix<V>(p: Seq<PendingView<V>>)
    requires
        well_tracked(p),
        p.len() > 0,
    ensures
        well_tracked(p.drop_last()),
{
    let q = p.drop_last();
    assert forall|i: int, j: int| 0 <= i < j < q.len() implies (#[trigger] q[i]).id != (#[trigger] q[j]).id by {
        assert(q[i] == p[i] && q[j] == p[j]);
    }
    assert forall|i: int| 0 <= i < q.len() implies (#[trigger] q[i]).id == q[i].vertex.id_spec() by {
        assert(q[i] == p[i]);
    }
}

/// Syncing `d` neither releases nor tracks a vertex under an identifier that is not pending.
proof fn lemma_sync_step_absent<V>(p: Seq<PendingView<V>>, d: SyncItem, x: Dependency)
    requires
        well_tracked(p),
        not_pending(p, x),
    ensures
        not_pending(still_pending(p, d), x),
        count_released(released(p, d), x) == 0,
    decreases p.len(),
{
    if p.len() > 0 {
        lemma_well_tracked_prefix(p);
        let q = p.drop_last();
        assert(not_pending(q, x)) by {
            assert forall|k: int| 0 <= k < q.len() implies (#[trigger] q[k]).id != x by {
                assert(q[k] == p[k]);
            }
        }
        lemma_sync_step_absent(q, d, x);
        assert(p.last().id != x);
        let sp = still_pending(p, d);
        let sq = still_pending(q, d);
        assert forall|k: int| 0 <= k < sp.len() implies (#[trigger] sp[k]).id != x by {
            if k < sq.len() {
                assert(sp[k] == sq[k]);
            }
        }
        let rq = released(q, d);
        if without(p.last().awaiting, d).len() == 0 {
            assert(released(p, d).drop_last() == rq);
        }
    }
}

/// What syncing `d` does to the pending entry at position `k`: it stays, without `d`, if it
/// waits for anything else, and is released exactly once otherwise.
pub proof fn lemma_sync_step_entry<V>(p: Seq<PendingView<V>>, d: SyncItem, k: int)
    requires
        well_tracked(p),
        0 <= k < p.len(),
    ensures
        without(p[k].awaiting, d).len() > 0 ==> pending_with(
            still_pending(p, d),
            p[k].id,
            p[k].vertex,
            without(p[k].awaiting, d),
        ) && count_released(released(p, d), p[k].id) == 0,
        without(p[k].awaiting, d).len() == 0 ==> not_pending(still_pending(p, d), p[k].id)
            && count_released(released(p, d), p[k].id) == 1,
    decreases p.len(),
{
    lemma_well_tracked_prefix(p);
    let q = p.drop_last();
    let x = p[k].id;
    let sp = still_pending(p, d);
    let sq = still_pending(q, d);
    let rq = released(q, d);
    if k == p.len() - 1 {
        assert(not_pending(q, x)) by {
            assert forall|j: int| 0 <= j < q.len() implies (#[trigger] q[j]).id != x by {
                assert(q[j] == p[j]);
            }
        }
        lemma_sync_step_absent(q, d, x);
        if without(p[k].awaiting, d).len() > 0 {
            assert(sp[sq.len() as int].id == x);
        } else {
            assert(released(p, d).drop_last() == rq);
            assert(released(p, d).last() == p[k].vertex);
        }
    } else {
        assert(q[k] == p[k]);
        lemma_sync_step_entry(q, d, k);
        assert(p.last().id != x);
        if without(p[k].awaiting, d).len() > 0 {
            let j = choose|j: int|
                0 <= j < sq.len() && (#[trigger] sq[j]).id == x && sq[j].vertex == p[k].vertex
                    && sq[j].awaiting == without(p[k].awaiting, d);
            assert(sp[j] == sq[j]);
        } else {
            assert forall|j: int| 0 <= j < sp.len() implies (#[trigger] sp[j]).id != x by {
                if j < sq.len() {
                    assert(sp[j] == sq[j]);
                }
            }
        }
        if without(p.last().awaiting, d).len() == 0 {
            assert(released(p, d).drop_last() == rq);
        }
    }
}

/// A vertex pending before a sequence of syncs `ds`, each applied as `on_vertex_synced` or
/// `on_consensus_value_synced` does, is released exactly once if every item it waits for is
/// among `ds`, and is then no longer pending; otherwise it is never released and still waits
/// for the items not synced.
pub proof fn lemma_release_exactly_once<V>(views: Seq<Seq<PendingView<V>>>, ds: Seq<SyncItem>, k: int)
    requires
        views.len() == ds.len() + 1,
        forall|i: int| 0 <= i < ds.len() ==> views[i + 1] == still_pending(#[trigger] views[i], ds[i]),
        forall|i: int| 0 <= i < views.len() ==> well_tracked(#[trigger] views[i]),
        0 <= k < views[0].len(),
        views[0][k].awaiting.len() > 0,
    ensures
        without_all(views[0][k].awaiting, ds).len() > 0 ==> pending_with(
            views.last(),
            views[0][k].id,
            views[0][k].vertex,
            without_all(views[0][k].awaiting, ds),
        ) && released_total(views, ds, views[0][k].id) == 0,
        without_all(views[0][k].awaiting, ds).len() == 0 ==> not_pending(views.last(), views[0][k].id)
            && released_total(views, ds, views[0][k].id) == 1,
    decreases ds.len(),
{
    let e = views[0][k];
    let x = e.id;
    if ds.len() == 0 {
        assert(views.last() == views[0]);
        assert(views[0][k].id == x);
    } else {
        let m = ds.len() - 1;
        let vs = views.drop_last();
        let dp = ds.drop_last();
        assert forall|i: int| 0 <= i < dp.len() implies vs[i + 1] == still_pending(#[trigger] vs[i], dp[i]) by {
            assert(vs[i + 1] == views[i + 1] && vs[i] == views[i] && dp[i] == ds[i]);
        }
        assert forall|i: int| 0 <= i < vs.len() implies well_tracked(#[trigger] vs[i]) by {
            assert(vs[i] == views[i]);
        }
        lemma_release_exactly_once(vs, dp, k);
        assert(released_total(views, dp, x) == released_total(vs, dp, x)) by {
            lemma_released_total_prefix(views, vs, dp, x);
        }
        let before = views[m];
        assert(before == vs.last());
        assert(well_tracked(before));
        assert(views.last() == still_pending(before, ds[m]));
        let rest = without_all(e.awaiting, dp);
        if rest.len() > 0 {
            let j = choose|j: int|
                0 <= j < before.len() && (#[trigger] before[j]).id == x && before[j].vertex == e.vertex
                    && before[j].awaiting == rest;
            lemma_sync_step_entry(before, ds[m], j);
        } else {
            lemma_sync_step_absent(before, ds[m], x);
            assert(without(rest, ds.last()).len() == 0);
        }
    }
}

proof fn lemma_released_total_prefix<V>(
    views: Seq<Seq<PendingView<V>>>,
    vs: Seq<Seq<PendingView<V>>>,
    ds: Seq<SyncItem>,
    x: Dependency,
)
    requires
        ds.len() < vs.len() <= views.len(),
        forall|i: int| 0 <= i < vs.len() ==> vs[i] == views[i],
    ensures
        released_total(views, ds, x) == released_total(vs, ds, x),
    decreases ds.len(),
{
    if ds.len() > 0 {
        lemma_released_total_prefix(views, vs, ds.drop_last(), x);
        assert(vs[ds.len() - 1] == views[ds.len() - 1]);
    }
}

/// A synchronizer's pending list is well tracked, and each entry waits for something, so
/// `lemma_release_exactly_once` applies to the lists that its calls produce.
pub proof fn lemma_wf_well_tracked<V>(ds: DagSynchronizerState<V>)
    requires
        ds.wf(),
    ensures
        well_tracked(ds@),
        forall|i: int| 0 <= i < ds@.len() ==> (#[trigger] ds@[i]).awaiting.len() > 0,
{
}

/// `without_all(a, ds)` holds exactly the items of `a` that are not among `ds`: it is empty
/// exactly when every item waited for has been synced.
pub proof fn lemma_without_all_contains(a: Seq<SyncItem>, ds: Seq<SyncItem>)
    ensures
        forall|y: SyncItem| #[trigger] without_all(a, ds).contains(y) <==> a.contains(y) && !ds.contains(y),
    decreases ds.len(),
{
    if ds.len() > 0 {
        let dp = ds.drop_last();
        lemma_without_all_contains(a, dp);
        lemma_without_contains(without_all(a, dp), ds.last());
        assert forall|y: SyncItem| #[trigger] without_all(a, ds).contains(y) <==> a.contains(y) && !ds.contains(y) by {
            if ds.contains(y) {
                let i = choose|i: int| 0 <= i < ds.len() && ds[i] == y;
                if i < dp.len() {
                    assert(dp[i] == y);
                }
            }
            if dp.contains(y) {
                let i = choose|i: int| 0 <= i < dp.len() && dp[i] == y;
                assert(ds[i] == y);
            }
            if y == ds.last() {
                assert(ds[ds.len() - 1] == y);
            }
        }
    }
}

} // verus!
