use vstd::prelude::*;

use crate::cfg::{analyzed, count_false, lemma_count_false_update, successors, ControlFlowGraph};
use crate::ssa::{BlockId, SSABlock, Var, SSA};

verus! {

/// For each block (by id), the variables it or a block after it consumes and that are
/// not produced on the way there.
pub struct BlockNeeds {
    pub block_needs: Vec<Vec<Var>>,
}

/// `marks` (by block id) is the set of blocks that need `v`: it holds every block with
/// `v` as a parameter, is closed backwards over jumps from blocks that do not bind `v`,
/// and holds nothing else: each marked block without the parameter is justified by its
/// successor, whose distance `dist` to a parameter is smaller (so no cycle supports
/// itself).
pub open spec fn need_closed(blocks: Seq<SSABlock>, v: Var, marks: Seq<bool>, dist: Seq<nat>) -> bool {
    let succ = successors(blocks);
    &&& marks.len() == blocks.len()
    &&& dist.len() == blocks.len()
    &&& forall|b: int| 0 <= b < blocks.len() && #[trigger] blocks[b].parameters@.contains(v) ==> marks[b]
    &&& forall|p: int|
        0 <= p < blocks.len() && (#[trigger] succ[p]) is Some && marks[succ[p]->Some_0.id as int]
            && !blocks[p].bindings().contains_key(v) ==> marks[p]
    &&& forall|b: int|
        0 <= b < blocks.len() && #[trigger] marks[b] ==> blocks[b].parameters@.contains(v) || (
        succ[b] is Some && marks[succ[b]->Some_0.id as int] && !blocks[b].bindings().contains_key(v)
            && dist[succ[b]->Some_0.id as int] < dist[b])
}

/// Every need of a block not holding the parameter is justified by its successor's need,
/// at a smaller `rank`.
pub open spec fn needs_ranked(blocks: Seq<SSABlock>, needs: BlockNeeds, rank: spec_fn(int, Var) -> nat) -> bool {
    let succ = successors(blocks);
    forall|b: int, v: Var|
        0 <= b < blocks.len() && #[trigger] needs.needs(b, v) ==> blocks[b].parameters@.contains(v) || (
        succ[b] is Some && needs.needs(succ[b]->Some_0.id as int, v) && !blocks[b].bindings().contains_key(v)
            && rank(succ[b]->Some_0.id as int, v) < rank(b, v))
}

impl BlockNeeds {
    pub open spec fn needs(&self, b: int, v: Var) -> bool {
        self.block_needs@[b]@.contains(v)
    }
}

/// The needs of every block, as the needs calculation leaves them: the least relation
/// that holds each block's parameters and is passed back over every jump from a block
/// that does not bind the variable.
pub open spec fn needs_of(blocks: Seq<SSABlock>, needs: BlockNeeds) -> bool {
    let succ = successors(blocks);
    &&& needs.block_needs@.len() == blocks.len()
    &&& forall|b: int| 0 <= b < blocks.len() ==> (#[trigger] needs.block_needs@[b])@.no_duplicates()
    &&& forall|b: int, v: Var|
        0 <= b < blocks.len() && #[trigger] blocks[b].parameters@.contains(v) ==> needs.needs(b, v)
    &&& forall|p: int, v: Var|
        0 <= p < blocks.len() && (#[trigger] succ[p]) is Some && needs.needs(succ[p]->Some_0.id as int, v)
            && !blocks[p].bindings().contains_key(v) ==> #[trigger] needs.needs(p, v)
    &&& exists|rank: spec_fn(int, Var) -> nat| needs_ranked(blocks, needs, rank)
}

impl SSA {
    /// The blocks that need `v`, by id.
    fn needs_for_variable(&self, cfg: &ControlFlowGraph, v: Var) -> (r: (Vec<bool>, Ghost<Seq<nat>>))
        requires
            analyzed(self.blocks@, *cfg),
        ensures
            need_closed(self.blocks@, v, r.0@, r.1@),
    {
        let n = self.blocks.len();
        let ghost mut dist: Seq<nat> = Seq::new(n as nat, |i: int| 0nat);
        let ghost succ = successors(self.blocks@);
        let mut marks: Vec<bool> = Vec::new();
        let mut queue: Vec<usize> = Vec::new();
        let mut b: usize = 0;
        while b < n
            invariant
                n == self.blocks@.len(),
                b <= n,
                marks@.len() == b,
                forall|j: int| 0 <= j < b ==> (#[trigger] marks@[j] <==> self.blocks@[j].parameters@.contains(v)),
                forall|j: int| 0 <= j < queue@.len() ==> #[trigger] queue@[j] < b && marks@[queue@[j] as int],
                forall|j: int| 0 <= j < b && #[trigger] marks@[j] ==> queue@.contains(j as usize),
            decreases n - b,
        {
            let seed = self.blocks[b].parameter_index(v).is_some();
            let ghost q0 = queue@;
            marks.push(seed);
            if seed {
                queue.push(b);
            }
            proof {
                assert forall|j: int| 0 <= j < b + 1 && #[trigger] marks@[j] implies queue@.contains(j as usize) by {
                    if j == b {
                        assert(queue@[queue@.len() - 1] == j);
                    } else {
                        let k = choose|k: int| 0 <= k < q0.len() && q0[k] == j as usize;
                        assert(queue@[k] == q0[k]);
                    }
                }
            }
            b = b + 1;
        }
        let mut head: usize = 0;
        while head < queue.len()
            invariant
                n == self.blocks@.len(),
                analyzed(self.blocks@, *cfg),
                succ == successors(self.blocks@),
                marks@.len() == n,
                dist.len() == n,
                head <= queue@.len(),
                forall|j: int| 0 <= j < queue@.len() ==> #[trigger] queue@[j] < n && marks@[queue@[j] as int],
                forall|j: int| 0 <= j < n && #[trigger] marks@[j] ==> queue@.contains(j as usize),
                forall|j: int| 0 <= j < n && #[trigger] self.blocks@[j].parameters@.contains(v) ==> marks@[j],
                forall|j: int|
                    0 <= j < n && #[trigger] marks@[j] ==> self.blocks@[j].parameters@.contains(v) || (
                    succ[j] is Some && marks@[succ[j]->Some_0.id as int]
                        && !self.blocks@[j].bindings().contains_key(v) && dist[succ[j]->Some_0.id as int] < dist[j]),
                // every block already taken from the queue has passed the need to its jumpers
                forall|p: int|
                    0 <= p < n && (#[trigger] succ[p]) is Some && !self.blocks@[p].bindings().contains_key(v)
                        && (exists|j: int| 0 <= j < head && queue@[j] == succ[p]->Some_0.id) ==> marks@[p],
            decreases count_false(marks@) + queue@.len() - head,
        {
            let t = queue[head];
            let ghost m0 = count_false(marks@) + queue@.len();
            let mut p: usize = 0;
            while p < n
                invariant
                    n == self.blocks@.len(),
                    analyzed(self.blocks@, *cfg),
                    succ == successors(self.blocks@),
                    marks@.len() == n,
                    dist.len() == n,
                    head < queue@.len(),
                    t == queue@[head as int],
                    p <= n,
                    count_false(marks@) + queue@.len() == m0,
                    forall|j: int| 0 <= j < queue@.len() ==> #[trigger] queue@[j] < n && marks@[queue@[j] as int],
                    forall|j: int| 0 <= j < n && #[trigger] marks@[j] ==> queue@.contains(j as usize),
                    forall|j: int| 0 <= j < n && #[trigger] self.blocks@[j].parameters@.contains(v) ==> marks@[j],
                    forall|j: int|
                        0 <= j < n && #[trigger] marks@[j] ==> self.blocks@[j].parameters@.contains(v) || (
                        succ[j] is Some && marks@[succ[j]->Some_0.id as int]
                            && !self.blocks@[j].bindings().contains_key(v) && dist[succ[j]->Some_0.id as int] < dist[j]),
                    forall|pp: int|
                        0 <= pp < n && (#[trigger] succ[pp]) is Some && !self.blocks@[pp].bindings().contains_key(v)
                            && (exists|j: int| 0 <= j < head && queue@[j] == succ[pp]->Some_0.id) ==> marks@[pp],
                    forall|pp: int|
                        0 <= pp < p && (#[trigger] succ[pp]) == Some(BlockId { id: t })
                            && !self.blocks@[pp].bindings().contains_key(v) ==> marks@[pp],
                decreases n - p,
            {
                if cfg.block_jumps_to[p] == Some(BlockId { id: t }) && !marks[p] && self.blocks[p].binding(v).is_none() {
                    proof {
                        lemma_count_false_update(marks@, p as int);
                    }
                    let ghost q0 = queue@;
                    let ghost m_before = marks@;
                    let ghost d_before = dist;
                    marks.set(p, true);
                    queue.push(p);
                    proof {
                        dist = dist.update(p as int, dist[t as int] + 1);
                        assert forall|j: int|
                            0 <= j < n && #[trigger] marks@[j] implies self.blocks@[j].parameters@.contains(v) || (
                            succ[j] is Some && marks@[succ[j]->Some_0.id as int]
                                && !self.blocks@[j].bindings().contains_key(v) && dist[succ[j]->Some_0.id as int] < dist[j]) by {
                            if j == p {
                                assert(succ[p as int] == Some(BlockId { id: t }));
                            } else {
                                assert(m_before[j]);
                                if !self.blocks@[j].parameters@.contains(v) {
                                    assert(succ[j]->Some_0.id != p);
                                }
                            }
                        }
                    }
                    proof {
                        assert forall|j: int| 0 <= j < n && #[trigger] marks@[j] implies queue@.contains(j as usize) by {
                            if j == p {
                                assert(queue@[queue@.len() - 1] == j);
                            } else {
                                let k = choose|k: int| 0 <= k < q0.len() && q0[k] == j as usize;
                                assert(queue@[k] == q0[k]);
                            }
                        }
                    }
                }
                p = p + 1;
            }
            proof {
                assert forall|pp: int|
                    0 <= pp < n && (#[trigger] succ[pp]) is Some && !self.blocks@[pp].bindings().contains_key(v)
                        && (exists|j: int| 0 <= j < head + 1 && queue@[j] == succ[pp]->Some_0.id) implies marks@[pp] by {
                    let j = choose|j: int| 0 <= j < head + 1 && queue@[j] == succ[pp]->Some_0.id;
                    if j == head {
                        assert(succ[pp] == Some(BlockId { id: t }));
                    }
                }
            }
            head = head + 1;
        }
        proof {
            assert forall|pp: int|
                0 <= pp < n && (#[trigger] succ[pp]) is Some && marks@[succ[pp]->Some_0.id as int]
                    && !self.blocks@[pp].bindings().contains_key(v) implies marks@[pp] by {
                let tt = succ[pp]->Some_0.id;
                assert(queue@.contains(tt));
                let j = choose|j: int| 0 <= j < queue@.len() && queue@[j] == tt;
                assert(0 <= j < head && queue@[j] == tt);
            }
        }
        (marks, Ghost(dist))
    }

    /// Computes, per block, the variables it needs from its predecessors.
    pub fn block_needs(&self, cfg: &ControlFlowGraph) -> (r: BlockNeeds)
        requires
            analyzed(self.blocks@, *cfg),
        ensures
            needs_of(self.blocks@, r),
    {
        let n = self.blocks.len();
        let ghost succ = successors(self.blocks@);
        let mut block_needs: Vec<Vec<Var>> = Vec::new();
        let mut i: usize = 0;
        while i < n
            invariant
                i <= n,
                block_needs@.len() == i,
                forall|x: int| 0 <= x < i ==> (#[trigger] block_needs@[x])@.len() == 0,
            decreases n - i,
        {
            block_needs.push(Vec::new());
            i = i + 1;
        }
        let mut seen: Vec<Var> = Vec::new();
        let ghost mut mk: Map<Var, Seq<bool>> = Map::empty();
        let ghost mut dk: Map<Var, Seq<nat>> = Map::empty();
        let mut b: usize = 0;
        while b < n
            invariant
                n == self.blocks@.len(),
                analyzed(self.blocks@, *cfg),
                b <= n,
                block_needs@.len() == n,
                forall|x: int| 0 <= x < n ==> (#[trigger] block_needs@[x])@.no_duplicates(),
                forall|v: Var| #[trigger] seen@.contains(v) ==> need_closed(self.blocks@, v, mk[v], dk[v]),
                forall|x: int, v: Var|
                    0 <= x < n ==> (#[trigger] block_needs@[x]@.contains(v) <==> seen@.contains(v)
                        && mk[v][x]),
                forall|bb: int, v: Var|
                    0 <= bb < b && #[trigger] self.blocks@[bb].parameters@.contains(v) ==> seen@.contains(v),
            decreases n - b,
        {
            let np = self.blocks[b].parameters.len();
            let mut i: usize = 0;
            while i < np
                invariant
                    n == self.blocks@.len(),
                    analyzed(self.blocks@, *cfg),
                    b < n,
                    np == self.blocks@[b as int].parameters@.len(),
                    i <= np,
                    block_needs@.len() == n,
                    forall|x: int| 0 <= x < n ==> (#[trigger] block_needs@[x])@.no_duplicates(),
                    forall|v: Var| #[trigger] seen@.contains(v) ==> need_closed(self.blocks@, v, mk[v], dk[v]),
                    forall|x: int, v: Var|
                        0 <= x < n ==> (#[trigger] block_needs@[x]@.contains(v) <==> seen@.contains(v)
                            && mk[v][x]),
                    forall|bb: int, v: Var|
                        0 <= bb < b && #[trigger] self.blocks@[bb].parameters@.contains(v) ==> seen@.contains(v),
                    forall|j: int| 0 <= j < i ==> seen@.contains(#[trigger] self.blocks@[b as int].parameters@[j]),
                decreases np - i,
            {
                let v = self.blocks[b].parameters[i];
                let mut known = false;
                let mut s: usize = 0;
                while s < seen.len()
                    invariant
                        s <= seen@.len(),
                        known == exists|j: int| 0 <= j < s && seen@[j] == v,
                    decreases seen@.len() - s,
                {
                    if seen[s] == v {
                        known = true;
                    }
                    s = s + 1;
                }
                if !known {
                    let (marks, Ghost(dv)) = self.needs_for_variable(cfg, v);
                    let mut x: usize = 0;
                    while x < n
                        invariant
                            n == self.blocks@.len(),
                            marks@.len() == n,
                            !seen@.contains(v),
                            x <= n,
                            block_needs@.len() == n,
                            forall|y: int| 0 <= y < n ==> (#[trigger] block_needs@[y])@.no_duplicates(),
                            forall|y: int, w: Var|
                                0 <= y < n && w != v ==> (#[trigger] block_needs@[y]@.contains(w) <==> seen@.contains(w)
                                    && mk[w][y]),
                            forall|y: int| 0 <= y < n ==> (#[trigger] block_needs@[y]@.contains(v) <==> y < x && marks@[y]),
                        decreases n - x,
                    {
                        if marks[x] {
                            let ghost old_x = block_needs@[x as int];
                            let ghost bn0 = block_needs@;
                            assert(!old_x@.contains(v));
                            block_needs[x].push(v);
                            proof {
                                assert forall|y: int| 0 <= y < n && y != x implies block_needs@[y] == bn0[y] by {}
                                assert forall|a: int, c: int|
                                    0 <= a < block_needs@[x as int]@.len() && 0 <= c < block_needs@[x as int]@.len()
                                        && a != c implies block_needs@[x as int]@[a] != block_needs@[x as int]@[c] by {
                                    if a == old_x@.len() {
                                        assert(old_x@[c] != v);
                                    } else if c == old_x@.len() {
                                        assert(old_x@[a] != v);
                                    }
                                }
                                assert(block_needs@[x as int]@ == old_x@.push(v));
                                assert forall|w: Var| block_needs@[x as int]@.contains(w) <==> (old_x@.contains(w) || w == v) by {
                                    if old_x@.contains(w) {
                                        let k = choose|k: int| 0 <= k < old_x@.len() && old_x@[k] == w;
                                        assert(block_needs@[x as int]@[k] == w);
                                    }
                                    if w == v {
                                        assert(block_needs@[x as int]@[old_x@.len() as int] == w);
                                    }
                                }
                                assert forall|y: int, w: Var| 0 <= y < n && w != v implies (#[trigger] block_needs@[y]@.contains(w) <==> bn0[y]@.contains(w)) by {
                                    if y == x {
                                        assert(block_needs@[x as int]@.contains(w) <==> (old_x@.contains(w) || w == v));
                                    }
                                }
                            }
                        }
                        x = x + 1;
                    }
                    let ghost seen0 = seen@;
                    let ghost mk0 = mk;
                    let ghost dk0 = dk;
                    proof {
                        mk = mk.insert(v, marks@);
                        dk = dk.insert(v, dv);
                    }
                    seen.push(v);
                    proof {
                        assert(seen@.drop_last() == seen0);
                        assert forall|w: Var| #[trigger] seen@.contains(w) <==> (w == v || (seen@.drop_last().contains(w))) by {
                            if seen@.contains(w) && w != v {
                                let k = choose|k: int| 0 <= k < seen@.len() && seen@[k] == w;
                                assert(seen@.drop_last()[k] == w);
                            }
                            if w == v {
                                assert(seen@[seen@.len() - 1] == w);
                            }
                            if seen@.drop_last().contains(w) {
                                let k = choose|k: int| 0 <= k < seen@.drop_last().len() && seen@.drop_last()[k] == w;
                                assert(seen@[k] == w);
                            }
                        }
                    }
                    proof {
                        assert forall|w: Var| #[trigger] seen@.contains(w) implies need_closed(self.blocks@, w, mk[w], dk[w]) by {
                            if w != v {
                                assert(seen0.contains(w));
                                assert(mk[w] == mk0[w]);
                                assert(dk[w] == dk0[w]);
                            }
                        }
                        assert forall|y: int, w: Var|
                            0 <= y < n implies (#[trigger] block_needs@[y]@.contains(w) <==> seen@.contains(w)
                                && mk[w][y]) by {
                            if w != v {
                                assert(seen@.contains(w) == seen0.contains(w));
                                assert(mk[w] == mk0[w]);
                            }
                        }
                    }
                } else {
                    let ghost j = choose|j: int| 0 <= j < seen@.len() && seen@[j] == v;
                    assert(seen@.contains(v));
                }
                i = i + 1;
            }
            proof {
                assert forall|v: Var| #[trigger] self.blocks@[b as int].parameters@.contains(v) implies seen@.contains(v) by {
                    let j = choose|j: int| 0 <= j < np && self.blocks@[b as int].parameters@[j] == v;
                    assert(seen@.contains(self.blocks@[b as int].parameters@[j]));
                }
            }
            b = b + 1;
        }
        let r = BlockNeeds { block_needs };
        proof {
            assert forall|p: int, v: Var|
                0 <= p < n && (#[trigger] succ[p]) is Some && r.needs(succ[p]->Some_0.id as int, v)
                    && !self.blocks@[p].bindings().contains_key(v) implies #[trigger] r.needs(p, v) by {
                assert(need_closed(self.blocks@, v, mk[v], dk[v]));
            }
            let rank = |b: int, v: Var| if seen@.contains(v) && 0 <= b < n { dk[v][b] } else { 0nat };
            assert forall|bb: int, v: Var|
                0 <= bb < n && #[trigger] r.needs(bb, v) implies self.blocks@[bb].parameters@.contains(v) || (
                succ[bb] is Some && r.needs(succ[bb]->Some_0.id as int, v)
                    && !self.blocks@[bb].bindings().contains_key(v) && rank(succ[bb]->Some_0.id as int, v) < rank(bb, v)) by {
                assert(need_closed(self.blocks@, v, mk[v], dk[v]));
                assert(seen@.contains(v));
            }
            assert(needs_ranked(self.blocks@, r, rank));
            assert forall|bb: int, v: Var|
                0 <= bb < n && #[trigger] self.blocks@[bb].parameters@.contains(v) implies r.needs(bb, v) by {
                assert(need_closed(self.blocks@, v, mk[v], dk[v]));
            }
        }
        r
    }
}

} // verus!
