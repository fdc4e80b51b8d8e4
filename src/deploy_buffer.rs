use vstd::prelude::*;

verus! {

/// A deploy, as its serialized bytes.
#[derive(Debug, Clone, PartialEq, Eq, Hash)]
pub struct Deploy(pub Vec<u8>);

/// The hash of a block.
#[derive(Debug, Clone, Copy, PartialEq, Eq, Hash)]
pub struct BlockHash(pub [u8; 32]);

/// The deploys of a block.
pub struct BlockDeploys {
    pub block: BlockHash,
    pub deploys: Vec<Deploy>,
}

/// The set of the deploys' bytes.
pub open spec fn deploy_set(ds: Seq<Deploy>) -> Set<Seq<u8>> {
    Set::new(|x: Seq<u8>| exists|i: int| 0 <= i < ds.len() && (#[trigger] ds[i]).0@ == x)
}

/// The deploys of each block, by the block's hash bytes.
pub open spec fn block_map(bs: Seq<BlockDeploys>) -> Map<Seq<u8>, Set<Seq<u8>>>
    decreases bs.len(),
{
    if bs.len() == 0 {
        Map::empty()
    } else {
        block_map(bs.drop_last()).insert(bs.last().block.0@, deploy_set(bs.last().deploys@))
    }
}

/// No two entries hold the same deploy.
pub open spec fn distinct_deploys(ds: Seq<Deploy>) -> bool {
    forall|i: int, j: int| 0 <= i < j < ds.len() ==> (#[trigger] ds[i]).0@ != (#[trigger] ds[j]).0@
}

/// No two entries are for the same block.
pub open spec fn distinct_blocks(bs: Seq<BlockDeploys>) -> bool {
    forall|i: int, j: int| 0 <= i < j < bs.len() ==> (#[trigger] bs[i]).block.0@ != (#[trigger] bs[j]).block.0@
}

fn same_deploy(a: &Deploy, b: &Deploy) -> (r: bool)
    ensures
        r == (a.0@ == b.0@),
{
    if a.0.len() != b.0.len() {
        return false;
    }
    let mut i: usize = 0;
    while i < a.0.len()
        invariant
            a.0@.len() == b.0@.len(),
            i <= a.0@.len(),
            forall|k: int| 0 <= k < i ==> a.0@[k] == b.0@[k],
        decreases a.0@.len() - i,
    {
        if a.0[i] != b.0[i] {
            return false;
        }
        i = i + 1;
    }
    assert(a.0@ =~= b.0@);
    true
}

fn same_block(a: &BlockHash, b: &BlockHash) -> (r: bool)
    ensures
        r == (a.0@ == b.0@),
{
    let mut i: usize = 0;
    while i < 32
        invariant
            i <= 32,
            forall|k: int| 0 <= k < i ==> a.0@[k] == b.0@[k],
        decreases 32 - i,
    {
        if a.0[i] != b.0[i] {
            return false;
        }
        i = i + 1;
    }
    assert(a.0@ =~= b.0@);
    true
}

fn copy_deploy(d: &Deploy) -> (r: Deploy)
    ensures
        r.0@ == d.0@,
{
    let mut bytes: Vec<u8> = Vec::new();
    let mut i: usize = 0;
    while i < d.0.len()
        invariant
            i <= d.0@.len(),
            bytes@ == d.0@.take(i as int),
        decreases d.0@.len() - i,
    {
        bytes.push(d.0[i]);
        i = i + 1;
        assert(bytes@ =~= d.0@.take(i as int));
    }
    assert(d.0@.take(d.0@.len() as int) =~= d.0@);
    Deploy(bytes)
}

/// Whether `ds` holds `d`.
fn holds(ds: &Vec<Deploy>, d: &Deploy) -> (r: bool)
    ensures
        r == deploy_set(ds@).contains(d.0@),
{
    let mut i: usize = 0;
    while i < ds.len()
        invariant
            i <= ds@.len(),
            forall|k: int| 0 <= k < i ==> (#[trigger] ds@[k]).0@ != d.0@,
        decreases ds@.len() - i,
    {
        if same_deploy(&ds[i], d) {
            return true;
        }
        i = i + 1;
    }
    false
}

proof fn lemma_deploy_set_push(ds: Seq<Deploy>, d: Deploy)
    ensures
        deploy_set(ds.push(d)) == deploy_set(ds).insert(d.0@),
{
    assert forall|x: Seq<u8>| #[trigger] deploy_set(ds.push(d)).contains(x) <==> deploy_set(ds).insert(d.0@).contains(x) by {
        if deploy_set(ds).contains(x) {
            let i = choose|i: int| 0 <= i < ds.len() && (#[trigger] ds[i]).0@ == x;
            assert(ds.push(d)[i] == ds[i]);
        }
        if x == d.0@ {
            assert(ds.push(d)[ds.len() as int] == d);
        }
        if deploy_set(ds.push(d)).contains(x) {
            let i = choose|i: int| 0 <= i < ds.push(d).len() && (#[trigger] ds.push(d)[i]).0@ == x;
            if i < ds.len() {
                assert(ds[i] == ds.push(d)[i]);
            }
        }
    }
    assert(deploy_set(ds.push(d)) =~= deploy_set(ds).insert(d.0@));
}

/// `bs` without the entries for block `b`.
pub open spec fn drop_block(bs: Seq<BlockDeploys>, b: Seq<u8>) -> Seq<BlockDeploys>
    decreases bs.len(),
{
    if bs.len() == 0 {
        bs
    } else if bs.last().block.0@ == b {
        drop_block(bs.drop_last(), b)
    } else {
        drop_block(bs.drop_last(), b).push(bs.last())
    }
}

proof fn lemma_drop_block(bs: Seq<BlockDeploys>, b: Seq<u8>)
    ensures
        block_map(drop_block(bs, b)) == block_map(bs).remove(b),
    decreases bs.len(),
{
    if bs.len() > 0 {
        lemma_drop_block(bs.drop_last(), b);
        if bs.last().block.0@ != b {
            let d = drop_block(bs.drop_last(), b).push(bs.last());
            assert(d.drop_last() == drop_block(bs.drop_last(), b));
        }
        assert(block_map(drop_block(bs, b)) =~= block_map(bs).remove(b));
    } else {
        assert(block_map(bs).remove(b) =~= block_map(bs));
    }
}

proof fn lemma_drop_block_lacks(bs: Seq<BlockDeploys>, b: Seq<u8>, i: int)
    requires
        0 <= i < drop_block(bs, b).len(),
    ensures
        drop_block(bs, b)[i].block.0@ != b,
    decreases bs.len(),
{
    if bs.len() > 0 {
        if bs.last().block.0@ == b {
            lemma_drop_block_lacks(bs.drop_last(), b, i);
        } else if i < drop_block(bs.drop_last(), b).len() {
            lemma_drop_block_lacks(bs.drop_last(), b, i);
        }
    }
}

proof fn lemma_drop_block_distinct(bs: Seq<BlockDeploys>, b: Seq<u8>)
    requires
        distinct_blocks(bs),
    ensures
        distinct_blocks(drop_block(bs, b)),
        forall|i: int| 0 <= i < drop_block(bs, b).len() ==> exists|j: int| 0 <= j < bs.len() && (#[trigger] bs[j]).block.0@ == (#[trigger] drop_block(bs, b)[i]).block.0@,
    decreases bs.len(),
{
    if bs.len() > 0 {
        let bs0 = bs.drop_last();
        assert(distinct_blocks(bs0)) by {
            assert forall|i: int, j: int| 0 <= i < j < bs0.len() implies (#[trigger] bs0[i]).block.0@ != (#[trigger] bs0[j]).block.0@ by {
                assert(bs0[i] == bs[i] && bs0[j] == bs[j]);
            }
        }
        lemma_drop_block_distinct(bs0, b);
        let d0 = drop_block(bs0, b);
        assert forall|i: int| 0 <= i < d0.len() implies exists|j: int| 0 <= j < bs.len() && (#[trigger] bs[j]).block.0@ == (#[trigger] d0[i]).block.0@ by {
            let j = choose|j: int| 0 <= j < bs0.len() && (#[trigger] bs0[j]).block.0@ == d0[i].block.0@;
            assert(bs[j] == bs0[j]);
        }
        if bs.last().block.0@ != b {
            let d = d0.push(bs.last());
            assert forall|i: int| 0 <= i < d0.len() implies (#[trigger] d0[i]).block.0@ != bs.last().block.0@ by {
                let j = choose|j: int| 0 <= j < bs.len() && (#[trigger] bs[j]).block.0@ == d0[i].block.0@;
                if j == bs.len() - 1 {
                    let k = choose|k: int| 0 <= k < bs0.len() && (#[trigger] bs0[k]).block.0@ == d0[i].block.0@;
                    assert(bs[k] == bs0[k]);
                }
            }
            assert forall|i: int, j: int| 0 <= i < j < d.len() implies (#[trigger] d[i]).block.0@ != (#[trigger] d[j]).block.0@ by {
                if j == d.len() - 1 {
                    assert(d[i] == d0[i]);
                } else {
                    assert(d[i] == d0[i] && d[j] == d0[j]);
                }
            }
            assert forall|i: int| 0 <= i < d.len() implies exists|j: int| 0 <= j < bs.len() && (#[trigger] bs[j]).block.0@ == (#[trigger] d[i]).block.0@ by {
                if i < d0.len() {
                    assert(d[i] == d0[i]);
                } else {
                    assert(bs[bs.len() - 1].block.0@ == d[i].block.0@);
                }
            }
        }
    }
}

/// Removes the entries for `b` from `bs`, and returns the deploys of the last of them.
fn take_entry(bs: &mut Vec<BlockDeploys>, b: &BlockHash) -> (r: Vec<Deploy>)
    ensures
        final(bs)@ == drop_block(old(bs)@, b.0@),
        block_map(old(bs)@).contains_key(b.0@) ==> deploy_set(r@) == block_map(old(bs)@)[b.0@],
{
    let ghost b0 = bs@;
    let mut rest: Vec<BlockDeploys> = Vec::new();
    std::mem::swap(&mut rest, bs);
    let mut found: Vec<Deploy> = Vec::new();
    let ghost mut i: int = 0;
    assert(b0.skip(0) =~= b0);
    while rest.len() > 0
        invariant
            0 <= i <= b0.len(),
            rest@ == b0.skip(i),
            bs@ == drop_block(b0.take(i), b.0@),
            block_map(b0.take(i)).contains_key(b.0@) ==> deploy_set(found@) == block_map(b0.take(i))[b.0@],
        decreases rest@.len(),
    {
        let e = rest.remove(0);
        assert(rest@ =~= b0.skip(i + 1));
        assert(b0.take(i + 1).drop_last() =~= b0.take(i));
        assert(b0.take(i + 1).last() == e);
        if same_block(&e.block, b) {
            found = e.deploys;
        } else {
            bs.push(e);
        }
        proof {
            i = i + 1;
        }
    }
    assert(b0.take(i) =~= b0);
    found
}

/// Whether the entry for block `b` in `bs` holds `d`.
fn block_holds(bs: &Vec<BlockDeploys>, b: &BlockHash, d: &Deploy) -> (r: bool)
    ensures
        r == (block_map(bs@).contains_key(b.0@) && block_map(bs@)[b.0@].contains(d.0@)),
{
    let mut i: usize = bs.len();
    assert(bs@.take(bs@.len() as int) =~= bs@);
    while i > 0
        invariant
            i <= bs@.len(),
            block_map(bs@).contains_key(b.0@) == block_map(bs@.take(i as int)).contains_key(b.0@),
            block_map(bs@).contains_key(b.0@) ==> block_map(bs@)[b.0@] == block_map(bs@.take(i as int))[b.0@],
        decreases i,
    {
        assert(bs@.take(i as int).drop_last() =~= bs@.take(i as int - 1));
        assert(bs@.take(i as int).last() == bs@[i as int - 1]);
        if same_block(&bs[i - 1].block, b) {
            return holds(&bs[i - 1].deploys, d);
        }
        i = i - 1;
    }
    false
}

/// A buffer of deploys: those waiting to be included in a block, and those included in blocks
/// that were added or finalized.
pub struct DeployBuffer {
    pub(crate) collected_deploys: Vec<Deploy>,
    pub(crate) processed: Vec<BlockDeploys>,
    pub(crate) finalized: Vec<BlockDeploys>,
}

impl DeployBuffer {
    pub open(crate) spec fn collected(&self) -> Set<Seq<u8>> {
        deploy_set(self.collected_deploys@)
    }

    pub open(crate) spec fn processed_map(&self) -> Map<Seq<u8>, Set<Seq<u8>>> {
        block_map(self.processed@)
    }

    pub open(crate) spec fn finalized_map(&self) -> Map<Seq<u8>, Set<Seq<u8>>> {
        block_map(self.finalized@)
    }

    pub open(crate) spec fn wf(&self) -> bool {
        &&& distinct_deploys(self.collected_deploys@)
        &&& distinct_blocks(self.processed@)
    }

    /// The deploys that the blocks `blocks` include, as added or finalized.
    pub open(crate) spec fn included_in(&self, blocks: Seq<BlockHash>) -> Set<Seq<u8>> {
        Set::new(
            |x: Seq<u8>|
                exists|i: int|
                    0 <= i < blocks.len() && ((self.processed_map().contains_key(
                        (#[trigger] blocks[i]).0@,
                    ) && self.processed_map()[blocks[i].0@].contains(x)) || (
                    self.finalized_map().contains_key(blocks[i].0@)
                        && self.finalized_map()[blocks[i].0@].contains(x))),
        )
    }

    /// An empty buffer.
    pub fn new() -> (r: Self)
        ensures
            r.wf(),
            r.collected() == Set::<Seq<u8>>::empty(),
            r.processed_map() == Map::<Seq<u8>, Set<Seq<u8>>>::empty(),
            r.finalized_map() == Map::<Seq<u8>, Set<Seq<u8>>>::empty(),
    {
        let r = DeployBuffer { collected_deploys: Vec::new(), processed: Vec::new(), finalized: Vec::new() };
        assert(r.collected() =~= Set::<Seq<u8>>::empty());
        r
    }

    /// Adds a deploy to the collected deploys.
    pub fn add_deploy(&mut self, deploy: Deploy)
        requires
            old(self).wf(),
        ensures
            final(self).wf(),
            final(self).collected() == old(self).collected().insert(deploy.0@),
            final(self).processed_map() == old(self).processed_map(),
            final(self).finalized_map() == old(self).finalized_map(),
    {
        let ghost before = self.collected_deploys@;
        if !holds(&self.collected_deploys, &deploy) {
            self.collected_deploys.push(deploy);
            proof {
                assert forall|x: Seq<u8>| #[trigger] deploy_set(self.collected_deploys@).contains(x) <==> deploy_set(before).insert(deploy.0@).contains(x) by {
                    if deploy_set(before).contains(x) {
                        let i = choose|i: int| 0 <= i < before.len() && (#[trigger] before[i]).0@ == x;
                        assert(self.collected_deploys@[i] == before[i]);
                    }
                    if x == deploy.0@ {
                        assert(self.collected_deploys@[before.len() as int] == deploy);
                    }
                    if deploy_set(self.collected_deploys@).contains(x) {
                        let i = choose|i: int| 0 <= i < self.collected_deploys@.len() && (#[trigger] self.collected_deploys@[i]).0@ == x;
                        if i < before.len() {
                            assert(before[i] == self.collected_deploys@[i]);
                        }
                    }
                }
                assert(deploy_set(self.collected_deploys@) =~= deploy_set(before).insert(deploy.0@));
            }
        } else {
            assert(deploy_set(before) =~= deploy_set(before).insert(deploy.0@));
        }
    }
    /// Returns whether a block of `blocks` includes `d`, as added or finalized.
    fn is_included(&self, blocks: &Vec<BlockHash>, d: &Deploy) -> (r: bool)
        ensures
            r == self.included_in(blocks@).contains(d.0@),
    {
        let mut i: usize = 0;
        while i < blocks.len()
            invariant
                i <= blocks@.len(),
                forall|k: int|
                    0 <= k < i ==> !((self.processed_map().contains_key((#[trigger] blocks@[k]).0@)
                        && self.processed_map()[blocks@[k].0@].contains(d.0@)) || (
                    self.finalized_map().contains_key(blocks@[k].0@)
                        && self.finalized_map()[blocks@[k].0@].contains(d.0@))),
            decreases blocks@.len() - i,
        {
            if block_holds(&self.processed, &blocks[i], d) || block_holds(&self.finalized, &blocks[i], d) {
                return true;
            }
            i = i + 1;
        }
        false
    }

    /// Takes out and returns the deploys that are in none of the blocks `blocks`; those that
    /// are in one of them stay collected.
    pub fn remaining_deploys(&mut self, blocks: &Vec<BlockHash>) -> (r: Vec<Deploy>)
        requires
            old(self).wf(),
        ensures
            final(self).wf(),
            distinct_deploys(r@),
            deploy_set(r@) == old(self).collected().difference(old(self).included_in(blocks@)),
            final(self).collected() == old(self).collected().intersect(old(self).included_in(blocks@)),
            final(self).processed_map() == old(self).processed_map(),
            final(self).finalized_map() == old(self).finalized_map(),
    {
        let ghost inc = self.included_in(blocks@);
        let ghost c0 = self.collected_deploys@;
        let mut result: Vec<Deploy> = Vec::new();
        let mut keep: Vec<Deploy> = Vec::new();
        let mut i: usize = 0;
        while i < self.collected_deploys.len()
            invariant
                c0 == self.collected_deploys@,
                distinct_deploys(c0),
                inc == self.included_in(blocks@),
                i <= c0.len(),
                forall|x: Seq<u8>| #[trigger] deploy_set(result@).contains(x) <==> deploy_set(c0.take(i as int)).contains(x) && !inc.contains(x),
                forall|x: Seq<u8>| #[trigger] deploy_set(keep@).contains(x) <==> deploy_set(c0.take(i as int)).contains(x) && inc.contains(x),
                forall|a: int, b: int| 0 <= a < result@.len() && 0 <= b < result@.len() && a != b ==> (#[trigger] result@[a]).0@ != (#[trigger] result@[b]).0@,
                forall|a: int, b: int| 0 <= a < keep@.len() && 0 <= b < keep@.len() && a != b ==> (#[trigger] keep@[a]).0@ != (#[trigger] keep@[b]).0@,
                forall|a: int| 0 <= a < result@.len() ==> exists|j: int| 0 <= j < i && (#[trigger] c0[j]).0@ == (#[trigger] result@[a]).0@,
                forall|a: int| 0 <= a < keep@.len() ==> exists|j: int| 0 <= j < i && (#[trigger] c0[j]).0@ == (#[trigger] keep@[a]).0@,
            decreases c0.len() - i,
        {
            let d = copy_deploy(&self.collected_deploys[i]);
            let ghost r0 = result@;
            let ghost k0 = keep@;
            proof {
                assert forall|a: int| 0 <= a < r0.len() implies (#[trigger] r0[a]).0@ != d.0@ by {
                    let j = choose|j: int| 0 <= j < i && (#[trigger] c0[j]).0@ == r0[a].0@;
                }
                assert forall|a: int| 0 <= a < k0.len() implies (#[trigger] k0[a]).0@ != d.0@ by {
                    let j = choose|j: int| 0 <= j < i && (#[trigger] c0[j]).0@ == k0[a].0@;
                }
                lemma_deploy_set_push(c0.take(i as int), c0[i as int]);
                assert(c0.take(i as int + 1) =~= c0.take(i as int).push(c0[i as int]));
            }
            if self.is_included(blocks, &d) {
                keep.push(d);
                proof {
                    lemma_deploy_set_push(k0, d);
                    assert forall|a: int| 0 <= a < keep@.len() implies exists|j: int| 0 <= j < i + 1 && (#[trigger] c0[j]).0@ == (#[trigger] keep@[a]).0@ by {
                        if a < k0.len() {
                            let j = choose|j: int| 0 <= j < i && (#[trigger] c0[j]).0@ == k0[a].0@;
                            assert(c0[j].0@ == keep@[a].0@);
                        } else {
                            assert(c0[i as int].0@ == keep@[a].0@);
                        }
                    }
                }
            } else {
                result.push(d);
                proof {
                    lemma_deploy_set_push(r0, d);
                    assert forall|a: int| 0 <= a < result@.len() implies exists|j: int| 0 <= j < i + 1 && (#[trigger] c0[j]).0@ == (#[trigger] result@[a]).0@ by {
                        if a < r0.len() {
                            let j = choose|j: int| 0 <= j < i && (#[trigger] c0[j]).0@ == r0[a].0@;
                            assert(c0[j].0@ == result@[a].0@);
                        } else {
                            assert(c0[i as int].0@ == result@[a].0@);
                        }
                    }
                }
            }
            i = i + 1;
        }
        assert(c0.take(c0.len() as int) =~= c0);
        self.collected_deploys = keep;
        assert(deploy_set(result@) =~= deploy_set(c0).difference(inc));
        assert(deploy_set(self.collected_deploys@) =~= deploy_set(c0).intersect(inc));
        result
    }

    /// Records that `block` includes `deploys`; they are no longer collected.
    pub fn added_block(&mut self, block: BlockHash, deploys: Vec<Deploy>)
        requires
            old(self).wf(),
        ensures
            final(self).wf(),
            final(self).collected() == old(self).collected().difference(deploy_set(deploys@)),
            final(self).processed_map() == old(self).processed_map().insert(block.0@, deploy_set(deploys@)),
            final(self).finalized_map() == old(self).finalized_map(),
    {
        let ghost c0 = self.collected_deploys@;
        let ghost gone = deploy_set(deploys@);
        let mut keep: Vec<Deploy> = Vec::new();
        let mut i: usize = 0;
        while i < self.collected_deploys.len()
            invariant
                c0 == self.collected_deploys@,
                distinct_deploys(c0),
                gone == deploy_set(deploys@),
                i <= c0.len(),
                forall|x: Seq<u8>| #[trigger] deploy_set(keep@).contains(x) <==> deploy_set(c0.take(i as int)).contains(x) && !gone.contains(x),
                forall|a: int, b: int| 0 <= a < keep@.len() && 0 <= b < keep@.len() && a != b ==> (#[trigger] keep@[a]).0@ != (#[trigger] keep@[b]).0@,
                forall|a: int| 0 <= a < keep@.len() ==> exists|j: int| 0 <= j < i && (#[trigger] c0[j]).0@ == (#[trigger] keep@[a]).0@,
            decreases c0.len() - i,
        {
            let ghost k0 = keep@;
            proof {
                lemma_deploy_set_push(c0.take(i as int), c0[i as int]);
                assert(c0.take(i as int + 1) =~= c0.take(i as int).push(c0[i as int]));
            }
            if !holds(&deploys, &self.collected_deploys[i]) {
                let d = copy_deploy(&self.collected_deploys[i]);
                proof {
                    assert forall|a: int| 0 <= a < k0.len() implies (#[trigger] k0[a]).0@ != d.0@ by {
                        let j = choose|j: int| 0 <= j < i && (#[trigger] c0[j]).0@ == k0[a].0@;
                    }
                }
                keep.push(d);
                proof {
                    lemma_deploy_set_push(k0, d);
                    assert forall|a: int| 0 <= a < keep@.len() implies exists|j: int| 0 <= j < i + 1 && (#[trigger] c0[j]).0@ == (#[trigger] keep@[a]).0@ by {
                        if a < k0.len() {
                            let j = choose|j: int| 0 <= j < i && (#[trigger] c0[j]).0@ == k0[a].0@;
                            assert(c0[j].0@ == keep@[a].0@);
                        } else {
                            assert(c0[i as int].0@ == keep@[a].0@);
                        }
                    }
                }
            }
            i = i + 1;
        }
        assert(c0.take(c0.len() as int) =~= c0);
        self.collected_deploys = keep;
        assert(deploy_set(self.collected_deploys@) =~= deploy_set(c0).difference(gone));
        let _ = take_entry(&mut self.processed, &block);
        proof {
            lemma_drop_block(old(self).processed@, block.0@);
        }
        let ghost p0 = self.processed@;
        self.processed.push(BlockDeploys { block, deploys });
        proof {
            lemma_drop_block_distinct(old(self).processed@, block.0@);
            assert(self.processed@.drop_last() == p0);
            assert(block_map(self.processed@) =~= old(self).processed_map().insert(block.0@, deploy_set(deploys@)));
            assert forall|i: int, j: int| 0 <= i < j < self.processed@.len() implies (#[trigger] self.processed@[i]).block.0@ != (#[trigger] self.processed@[j]).block.0@ by {
                if j == self.processed@.len() - 1 {
                    lemma_drop_block_lacks(old(self).processed@, block.0@, i);
                }
            }
        }
    }

    /// Moves `block`, which must have been added, from the added to the finalized blocks.
    pub fn finalized_block(&mut self, block: BlockHash)
        requires
            old(self).wf(),
            old(self).processed_map().contains_key(block.0@),
        ensures
            final(self).wf(),
            final(self).collected() == old(self).collected(),
            final(self).processed_map() == old(self).processed_map().remove(block.0@),
            final(self).finalized_map() == old(self).finalized_map().insert(
                block.0@,
                old(self).processed_map()[block.0@],
            ),
    {
        let deploys = take_entry(&mut self.processed, &block);
        proof {
            lemma_drop_block(old(self).processed@, block.0@);
            lemma_drop_block_distinct(old(self).processed@, block.0@);
        }
        let _ = take_entry(&mut self.finalized, &block);
        proof {
            lemma_drop_block(old(self).finalized@, block.0@);
        }
        let ghost f0 = self.finalized@;
        self.finalized.push(BlockDeploys { block, deploys });
        proof {
            assert(self.finalized@.drop_last() == f0);
            assert(block_map(self.finalized@) =~= old(self).finalized_map().insert(block.0@, old(self).processed_map()[block.0@]));
            assert(block_map(self.processed@) =~= old(self).processed_map().remove(block.0@));
        }
    }

    /// Returns the deploys of `block`, which must have been added, to the collected deploys;
    /// the block is forgotten.
    pub fn orphaned_block(&mut self, block: BlockHash)
        requires
            old(self).wf(),
            old(self).processed_map().contains_key(block.0@),
        ensures
            final(self).wf(),
            final(self).collected() == old(self).collected().union(old(self).processed_map()[block.0@]),
            final(self).processed_map() == old(self).processed_map().remove(block.0@),
            final(self).finalized_map() == old(self).finalized_map(),
    {
        let deploys = take_entry(&mut self.processed, &block);
        proof {
            lemma_drop_block(old(self).processed@, block.0@);
            lemma_drop_block_distinct(old(self).processed@, block.0@);
            assert(block_map(self.processed@) =~= old(self).processed_map().remove(block.0@));
        }
        let ghost mid = *self;
        let mut i: usize = 0;
        while i < deploys.len()
            invariant
                self.wf(),
                i <= deploys@.len(),
                self.collected() == mid.collected().union(deploy_set(deploys@.take(i as int))),
                self.processed_map() == mid.processed_map(),
                self.finalized_map() == mid.finalized_map(),
            decreases deploys@.len() - i,
        {
            let d = copy_deploy(&deploys[i]);
            self.add_deploy(d);
            proof {
                lemma_deploy_set_push(deploys@.take(i as int), deploys@[i as int]);
                assert(deploys@.take(i as int + 1) =~= deploys@.take(i as int).push(deploys@[i as int]));
                assert(self.collected() =~= mid.collected().union(deploy_set(deploys@.take(i as int + 1))));
            }
            i = i + 1;
        }
        assert(deploys@.take(deploys@.len() as int) =~= deploys@);
    }

}

} // verus!
