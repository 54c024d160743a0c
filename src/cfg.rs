use vstd::prelude::*;

use crate::error::LowerError;
use crate::instruction::{label_of, GenInstruction};
use crate::ssa::{well_terminated, BlockId, SSABlock, SSA};

verus! {

/// The jump structure of a procedure, derived from its blocks.
pub struct ControlFlowGraph {
    pub entry_block: BlockId,
    pub first_real_block: BlockId,
    /// Indexed by block id: whether the block is reached from the entry block.
    pub reachable_blocks: Vec<bool>,
    /// Indexed by block id: the block its terminator jumps to, if any.
    pub block_jumps_to: Vec<Option<BlockId>>,
    /// Reachable blocks in breadth-first order from the entry block.
    pub approximate_toposort: Vec<BlockId>,
}

/// Where block `i` passes control: the label of its final jump, if it ends in one.
pub open spec fn successor(blocks: Seq<SSABlock>, i: int) -> Option<BlockId> {
    if blocks[i].instructions@.len() > 0 {
        label_of(blocks[i].instructions@.last())
    } else {
        None
    }
}

pub open spec fn successors(blocks: Seq<SSABlock>) -> Seq<Option<BlockId>> {
    Seq::new(blocks.len(), |i: int| successor(blocks, i))
}

/// Every block ends in exactly one terminator, and every final jump names a block.
pub open spec fn flow_ok(blocks: Seq<SSABlock>) -> bool {
    forall|i: int|
        0 <= i < blocks.len() ==> well_terminated(#[trigger] blocks[i]) && match successor(blocks, i) {
            Some(t) => t.id < blocks.len(),
            None => true,
        }
}

/// Block `order[k]` is the successor of a block earlier in `order`.
pub open spec fn found_from_earlier(succ: Seq<Option<BlockId>>, order: Seq<BlockId>, k: int) -> bool {
    exists|j: int| 0 <= j < k && #[trigger] succ[order[j].id as int] == Some(order[k])
}

/// A breadth-first traversal in progress: the queue of blocks found so far, how many
/// of them were visited, and which blocks were found.
pub struct BfsState {
    pub queue: Seq<BlockId>,
    pub head: nat,
    pub found: Seq<bool>,
}

pub open spec fn bfs_start(n: nat) -> BfsState {
    BfsState {
        queue: seq![BlockId { id: 0 }],
        head: 0,
        found: Seq::new(n, |i: int| i == 0),
    }
}

pub open spec fn bfs_done(st: BfsState) -> bool {
    st.head >= st.queue.len()
}

/// Visits the next queued block, queueing its successor if that is new.
pub open spec fn bfs_step(succ: Seq<Option<BlockId>>, st: BfsState) -> BfsState {
    if bfs_done(st) {
        st
    } else {
        let b = st.queue[st.head as int];
        match succ[b.id as int] {
            Some(t) => if !st.found[t.id as int] {
                BfsState {
                    queue: st.queue.push(t),
                    head: st.head + 1,
                    found: st.found.update(t.id as int, true),
                }
            } else {
                BfsState { head: st.head + 1, ..st }
            },
            None => BfsState { head: st.head + 1, ..st },
        }
    }
}

pub open spec fn bfs_iter(succ: Seq<Option<BlockId>>, st: BfsState, k: nat) -> BfsState
    decreases k,
{
    if k == 0 {
        st
    } else {
        bfs_step(succ, bfs_iter(succ, st, (k - 1) as nat))
    }
}

/// The traversal from the entry block, run to its end, gives this graph.
pub open spec fn is_traversal_of(blocks: Seq<SSABlock>, cfg: ControlFlowGraph) -> bool {
    exists|k: nat|
        {
            let st = #[trigger] bfs_iter(successors(blocks), bfs_start(blocks.len()), k);
            &&& bfs_done(st)
            &&& st.queue == cfg.approximate_toposort@
            &&& st.found == cfg.reachable_blocks@
        }
}

/// A graph analysed from `blocks`, with the properties the later passes rely on.
pub open spec fn analyzed(blocks: Seq<SSABlock>, cfg: ControlFlowGraph) -> bool {
    &&& blocks.len() >= 2
    &&& cfg.entry_block == BlockId { id: 0 }
    &&& cfg.first_real_block == BlockId { id: 1 }
    &&& cfg.block_jumps_to@ == successors(blocks)
    &&& cfg.reachable_blocks@.len() == blocks.len()
    &&& forall|i: int| 0 <= i < blocks.len() ==> match #[trigger] successors(blocks)[i] {
        Some(t) => t.id < blocks.len(),
        None => true,
    }
    &&& forall|i: int| 0 <= i < blocks.len() ==> well_terminated(#[trigger] blocks[i])
    &&& forall|i: int| 0 <= i < cfg.approximate_toposort@.len() ==>
        #[trigger] cfg.approximate_toposort@[i].id < blocks.len()
    &&& forall|i: int| 0 <= i < blocks.len() ==>
        (#[trigger] cfg.reachable_blocks@[i] <==> exists|j: int|
            0 <= j < cfg.approximate_toposort@.len() && cfg.approximate_toposort@[j].id == i)
    &&& cfg.approximate_toposort@.no_duplicates()
    &&& is_traversal_of(blocks, cfg)
    &&& cfg.reachable_blocks@[0]
    &&& cfg.approximate_toposort@.len() > 0
    &&& cfg.approximate_toposort@[0].id == 0
    &&& forall|k: int|
        1 <= k < cfg.approximate_toposort@.len() ==> #[trigger] found_from_earlier(
            successors(blocks),
            cfg.approximate_toposort@,
            k,
        )
    &&& forall|i: int|
        0 <= i < blocks.len() && #[trigger] cfg.reachable_blocks@[i] && successors(blocks)[i] is Some
            ==> cfg.reachable_blocks@[successors(blocks)[i]->Some_0.id as int]
}

pub open spec fn count_false(s: Seq<bool>) -> nat
    decreases s.len(),
{
    if s.len() == 0 {
        0
    } else {
        count_false(s.drop_last()) + if s.last() { 0nat } else { 1nat }
    }
}

pub proof fn lemma_count_false_update(s: Seq<bool>, i: int)
    requires
        0 <= i < s.len(),
        !s[i],
    ensures
        count_false(s.update(i, true)) + 1 == count_false(s),
    decreases s.len(),
{
    let u = s.update(i, true);
    if i == s.len() - 1 {
        assert(u.drop_last() =~= s.drop_last());
    } else {
        assert(u.drop_last() =~= s.drop_last().update(i, true));
        lemma_count_false_update(s.drop_last(), i);
    }
}

pub proof fn lemma_bfs_stays_done(succ: Seq<Option<BlockId>>, st: BfsState, k: nat, j: nat)
    requires
        bfs_done(bfs_iter(succ, st, k)),
    ensures
        bfs_iter(succ, st, k + j) == bfs_iter(succ, st, k),
    decreases j,
{
    if j > 0 {
        lemma_bfs_stays_done(succ, st, k, (j - 1) as nat);
        assert(bfs_iter(succ, st, k + j) == bfs_step(succ, bfs_iter(succ, st, (k + j - 1) as nat)));
    }
}

/// Analysing the same blocks twice gives the same reachable set, jump table and
/// block order.
pub proof fn lemma_analysis_idempotent(ssa: &SSA, a: ControlFlowGraph, b: ControlFlowGraph)
    requires
        analyzed(ssa.blocks@, a),
        analyzed(ssa.blocks@, b),
    ensures
        a.reachable_blocks@ == b.reachable_blocks@,
        a.block_jumps_to@ == b.block_jumps_to@,
        a.approximate_toposort@ == b.approximate_toposort@,
        a.entry_block == b.entry_block,
        a.first_real_block == b.first_real_block,
{
    let succ = successors(ssa.blocks@);
    let st = bfs_start(ssa.blocks@.len());
    let ka = choose|k: nat|
        {
            let s = #[trigger] bfs_iter(succ, st, k);
            &&& bfs_done(s)
            &&& s.queue == a.approximate_toposort@
            &&& s.found == a.reachable_blocks@
        };
    let kb = choose|k: nat|
        {
            let s = #[trigger] bfs_iter(succ, st, k);
            &&& bfs_done(s)
            &&& s.queue == b.approximate_toposort@
            &&& s.found == b.reachable_blocks@
        };
    if ka <= kb {
        lemma_bfs_stays_done(succ, st, ka, (kb - ka) as nat);
    } else {
        lemma_bfs_stays_done(succ, st, kb, (ka - kb) as nat);
    }
}

impl SSA {
    /// Computes the control-flow graph.
    ///
    /// Fails when there is no block besides the entry block, when a block does not end in
    /// exactly one terminator (the first such block is reported), or when a jump names a
    /// missing block.
    pub fn analyze_cfg(&self) -> (r: Result<ControlFlowGraph, LowerError>)
        ensures
            r is Ok <==> {
                &&& self.blocks@.len() >= 2
                &&& forall|i: int| 0 <= i < self.blocks@.len() ==> well_terminated(#[trigger] self.blocks@[i])
                &&& forall|i: int| 0 <= i < self.blocks@.len() ==>
                    match #[trigger] successors(self.blocks@)[i] {
                        Some(t) => t.id < self.blocks@.len(),
                        None => true,
                    }
            },
            r is Ok ==> analyzed(self.blocks@, r->Ok_0),
            r is Ok <==> self.blocks@.len() >= 2 && flow_ok(self.blocks@),
            r == Err::<ControlFlowGraph, LowerError>(LowerError::NoUserBlock) <==> self.blocks@.len() < 2,
            r matches Err(LowerError::IncompleteBlock(b)) ==> b.id < self.blocks@.len() && !well_terminated(
                self.blocks@[b.id as int],
            ) && forall|j: int| 0 <= j < b.id ==> well_terminated(#[trigger] self.blocks@[j]),
            r matches Err(LowerError::BadJumpTarget(t)) ==> t.id >= self.blocks@.len(),
            r matches Err(e) ==> e is NoUserBlock || e is IncompleteBlock || e is BadJumpTarget,
    {
        let n = self.blocks.len();
        if n < 2 {
            return Err(LowerError::NoUserBlock);
        }
        // == every block must end in exactly one terminator ==
        let mut i: usize = 0;
        while i < n
            invariant
                n == self.blocks@.len(),
                n >= 2,
                i <= n,
                forall|j: int| 0 <= j < i ==> well_terminated(#[trigger] self.blocks@[j]),
            decreases n - i,
        {
            if !self.blocks[i].is_well_terminated() {
                return Err(LowerError::IncompleteBlock(BlockId { id: i }));
            }
            i = i + 1;
        }
        // == jump table ==
        let ghost succ = successors(self.blocks@);
        let mut block_jumps_to: Vec<Option<BlockId>> = Vec::new();
        let mut i: usize = 0;
        while i < n
            invariant
                n == self.blocks@.len(),
                succ == successors(self.blocks@),
                n >= 2,
                forall|j: int| 0 <= j < n ==> well_terminated(#[trigger] self.blocks@[j]),
                i <= n,
                block_jumps_to@ == succ.take(i as int),
                forall|j: int| 0 <= j < i ==> match #[trigger] succ[j] {
                    Some(t) => t.id < n,
                    None => true,
                },
            decreases n - i,
        {
            let data = &self.blocks[i];
            let target = if data.instructions.len() > 0 {
                match data.instructions[data.instructions.len() - 1] {
                    GenInstruction::Jump { label } => Some(label),
                    _ => None,
                }
            } else {
                None
            };
            assert(target == succ[i as int]);
            if let Some(t) = target {
                if t.id >= n {
                    return Err(LowerError::BadJumpTarget(t));
                }
            }
            block_jumps_to.push(target);
            assert(block_jumps_to@ =~= succ.take(i + 1));
            i = i + 1;
        }
        assert(block_jumps_to@ =~= succ);
        // == breadth-first traversal from the entry block ==
        let mut found: Vec<bool> = Vec::new();
        let mut i: usize = 0;
        while i < n
            invariant
                i <= n,
                found@ =~= Seq::new(i as nat, |j: int| j == 0),
            decreases n - i,
        {
            found.push(i == 0);
            i = i + 1;
        }
        let mut queue: Vec<BlockId> = Vec::new();
        queue.push(BlockId { id: 0 });
        let mut head: usize = 0;
        let ghost mut k: nat = 0;
        assert(bfs_iter(succ, bfs_start(n as nat), 0) == bfs_start(n as nat));
        assert(queue@ =~= bfs_start(n as nat).queue);
        assert(queue@[0].id == 0);
        while head < queue.len()
            invariant
                n == self.blocks@.len(),
                n >= 2,
                succ == successors(self.blocks@),
                block_jumps_to@ == succ,
                forall|j: int| 0 <= j < n ==> match #[trigger] succ[j] {
                    Some(t) => t.id < n,
                    None => true,
                },
                found@.len() == n,
                head <= queue@.len(),
                bfs_iter(succ, bfs_start(n as nat), k) == (BfsState {
                    queue: queue@,
                    head: head as nat,
                    found: found@,
                }),
                forall|j: int| 0 <= j < queue@.len() ==> #[trigger] queue@[j].id < n,
                forall|b: int| 0 <= b < n ==>
                    (#[trigger] found@[b] <==> exists|j: int| 0 <= j < queue@.len() && queue@[j].id == b),
                queue@.no_duplicates(),
                found@[0],
                queue@.len() > 0,
                queue@[0].id == 0,
                forall|k: int| 1 <= k < queue@.len() ==> #[trigger] found_from_earlier(succ, queue@, k),
                forall|j: int| 0 <= j < head && (#[trigger] succ[queue@[j].id as int]) is Some ==> found@[succ[queue@[j].id as int]->Some_0.id as int],
            decreases count_false(found@) + queue@.len() - head,
        {
            let b = queue[head];
            let ghost st = bfs_iter(succ, bfs_start(n as nat), k);
            if let Some(t) = block_jumps_to[b.id] {
                if !found[t.id] {
                    proof {
                        lemma_count_false_update(found@, t.id as int);
                    }
                    let ghost q0 = queue@;
                    let ghost f0 = found@;
                    found.set(t.id, true);
                    queue.push(t);
                    proof {
                        assert forall|k: int| 1 <= k < queue@.len() implies #[trigger] found_from_earlier(succ, queue@, k) by {
                            if k == q0.len() {
                                assert(succ[queue@[head as int].id as int] == Some(queue@[k]));
                            } else {
                                assert(found_from_earlier(succ, q0, k));
                                let j = choose|j: int| 0 <= j < k && #[trigger] succ[q0[j].id as int] == Some(q0[k]);
                                assert(queue@[j] == q0[j]);
                            }
                        }
                        assert forall|bb: int| 0 <= bb < n implies (#[trigger] found@[bb] <==> exists|j: int|
                            0 <= j < queue@.len() && queue@[j].id == bb) by {
                            if bb == t.id {
                                assert(queue@[queue@.len() - 1].id == bb);
                            } else {
                                assert(found@[bb] == f0[bb]);
                                if f0[bb] {
                                    let j = choose|j: int| 0 <= j < q0.len() && q0[j].id == bb;
                                    assert(queue@[j] == q0[j]);
                                }
                                if exists|j: int| 0 <= j < queue@.len() && queue@[j].id == bb {
                                    let j = choose|j: int| 0 <= j < queue@.len() && queue@[j].id == bb;
                                    assert(j < q0.len());
                                    assert(q0[j].id == bb);
                                }
                            }
                        }
                        assert forall|x: int, y: int|
                            0 <= x < queue@.len() && 0 <= y < queue@.len() && x != y implies queue@[x]
                            != queue@[y] by {
                            if y == q0.len() {
                                assert(q0[x].id != t.id);
                            } else if x == q0.len() {
                                assert(q0[y].id != t.id);
                            } else {
                                assert(q0[x] != q0[y]);
                            }
                        }
                    }
                }
            }
            head = head + 1;
            proof {
                k = k + 1;
            }
        }
        assert(bfs_done(bfs_iter(successors(self.blocks@), bfs_start(self.blocks@.len()), k)));
        assert forall|i: int|
            0 <= i < n && #[trigger] found@[i] && succ[i] is Some implies found@[succ[i]->Some_0.id as int] by {
            let j = choose|j: int| 0 <= j < queue@.len() && queue@[j].id == i;
            assert(succ[queue@[j].id as int] is Some);
        }
        let cfg = ControlFlowGraph {
            entry_block: BlockId { id: 0 },
            first_real_block: BlockId { id: 1 },
            reachable_blocks: found,
            block_jumps_to,
            approximate_toposort: queue,
        };
        assert(is_traversal_of(self.blocks@, cfg));
        assert(cfg.block_jumps_to@ == successors(self.blocks@));
        assert(forall|i: int| 0 <= i < cfg.approximate_toposort@.len() ==>
            #[trigger] cfg.approximate_toposort@[i].id < self.blocks@.len());
        assert(cfg.approximate_toposort@.no_duplicates());
        assert forall|i: int| 0 <= i < n implies well_terminated(#[trigger] self.blocks@[i]) && match successor(
            self.blocks@,
            i,
        ) {
            Some(t) => t.id < n,
            None => true,
        } by {
            assert(successors(self.blocks@)[i] == successor(self.blocks@, i));
        }
        Ok(cfg)
    }
}

/// The blocks among the first `n` whose final jump goes to `target`, in increasing order.
pub open spec fn jumper_list(jumps: Seq<Option<BlockId>>, target: BlockId, n: nat) -> Seq<BlockId>
    decreases n,
{
    if n == 0 {
        Seq::empty()
    } else if jumps[n - 1] == Some(target) {
        jumper_list(jumps, target, (n - 1) as nat).push(BlockId { id: (n - 1) as usize })
    } else {
        jumper_list(jumps, target, (n - 1) as nat)
    }
}

pub proof fn lemma_jumper_list_member(jumps: Seq<Option<BlockId>>, target: BlockId, n: nat, q: int)
    requires
        n <= jumps.len(),
        jumps.len() <= usize::MAX,
        0 <= q < jumper_list(jumps, target, n).len(),
    ensures
        jumper_list(jumps, target, n)[q].id < n,
        jumps[jumper_list(jumps, target, n)[q].id as int] == Some(target),
    decreases n,
{
    if n > 0 {
        let prev = jumper_list(jumps, target, (n - 1) as nat);
        if q < prev.len() {
            lemma_jumper_list_member(jumps, target, (n - 1) as nat, q);
        }
    }
}

pub proof fn lemma_jumper_list_complete(jumps: Seq<Option<BlockId>>, target: BlockId, n: nat, p: int)
    requires
        n <= jumps.len(),
        jumps.len() <= usize::MAX,
        0 <= p < n,
        jumps[p] == Some(target),
    ensures
        jumper_list(jumps, target, n).contains(BlockId { id: p as usize }),
    decreases n,
{
    let l = jumper_list(jumps, target, n);
    if p == n - 1 {
        assert(l[l.len() - 1] == BlockId { id: p as usize });
    } else {
        lemma_jumper_list_complete(jumps, target, (n - 1) as nat, p);
        let prev = jumper_list(jumps, target, (n - 1) as nat);
        let k = choose|k: int| 0 <= k < prev.len() && prev[k] == BlockId { id: p as usize };
        assert(l[k] == prev[k]);
    }
}

impl ControlFlowGraph {
    /// The blocks whose terminator jumps to `target`, in increasing order.
    pub fn jumpers(&self, target: BlockId) -> (r: Vec<BlockId>)
        ensures
            r@ == jumper_list(self.block_jumps_to@, target, self.block_jumps_to@.len()),
            r@.no_duplicates(),
            forall|i: int| 0 <= i < r@.len() ==> (#[trigger] r@[i]).id < self.block_jumps_to@.len(),
            forall|p: int|
                0 <= p < self.block_jumps_to@.len() ==> (r@.contains(BlockId { id: p as usize })
                    <==> #[trigger] self.block_jumps_to@[p] == Some(target)),
    {
        let n = self.block_jumps_to.len();
        let mut r: Vec<BlockId> = Vec::new();
        let mut p: usize = 0;
        while p < n
            invariant
                n == self.block_jumps_to@.len(),
                p <= n,
                r@ == jumper_list(self.block_jumps_to@, target, p as nat),
                r@.no_duplicates(),
                forall|i: int| 0 <= i < r@.len() ==> (#[trigger] r@[i]).id < p,
                forall|q: int|
                    0 <= q < n ==> (r@.contains(BlockId { id: q as usize }) <==> q < p
                        && #[trigger] self.block_jumps_to@[q] == Some(target)),
            decreases n - p,
        {
            if self.block_jumps_to[p] == Some(target) {
                let ghost r0 = r@;
                r.push(BlockId { id: p });
                proof {
                    assert forall|q: int|
                        0 <= q < n implies (r@.contains(BlockId { id: q as usize }) <==> q < p + 1
                            && #[trigger] self.block_jumps_to@[q] == Some(target)) by {
                        if q == p {
                            assert(r@[r@.len() - 1] == BlockId { id: q as usize });
                        } else if r@.contains(BlockId { id: q as usize }) {
                            let j = choose|j: int| 0 <= j < r@.len() && r@[j] == BlockId { id: q as usize };
                            assert(r0[j] == BlockId { id: q as usize });
                        } else if r0.contains(BlockId { id: q as usize }) {
                            let j = choose|j: int| 0 <= j < r0.len() && r0[j] == BlockId { id: q as usize };
                            assert(r@[j] == BlockId { id: q as usize });
                        }
                    }
                }
            }
            p = p + 1;
        }
        r
    }
}

} // verus!
