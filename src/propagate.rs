use vstd::prelude::*;

use crate::cfg::{analyzed, found_from_earlier, is_traversal_of, successors, ControlFlowGraph};
use crate::codegen::reads_param;
use crate::error::LowerError;
use crate::instruction::GenInstruction;
use crate::needs::BlockNeeds;
use crate::phantoms::join_jumpers;
use crate::ssa::{populates_map, same_flow, ArgRegister, BlockId, SSABlock, SSAInstruction, SSAReg, Var, SSA};

verus! {

/// Blocks that pass control alike give the same successors.
pub proof fn lemma_same_flow_successors(b0: Seq<SSABlock>, b1: Seq<SSABlock>)
    requires
        b0.len() == b1.len(),
        forall|i: int| 0 <= i < b0.len() ==> same_flow(b0[i], #[trigger] b1[i]),
    ensures
        successors(b0) == successors(b1),
{
    assert(successors(b0) =~= successors(b1));
}

/// Analysis results carry over to blocks that pass control alike.
pub proof fn lemma_analyzed_frame(b0: Seq<SSABlock>, b1: Seq<SSABlock>, cfg: ControlFlowGraph)
    requires
        analyzed(b0, cfg),
        b0.len() == b1.len(),
        forall|i: int| 0 <= i < b0.len() ==> same_flow(b0[i], #[trigger] b1[i]),
    ensures
        analyzed(b1, cfg),
{
    lemma_same_flow_successors(b0, b1);
    assert forall|i: int| 1 <= i < b1.len() implies #[trigger] b1[i].complete by {
        assert(b0[i].complete);
        assert(same_flow(b0[i], b1[i]));
    }
    let k = choose|k: nat|
        {
            let st = #[trigger] crate::cfg::bfs_iter(successors(b0), crate::cfg::bfs_start(b0.len()), k);
            &&& crate::cfg::bfs_done(st)
            &&& st.queue == cfg.approximate_toposort@
            &&& st.found == cfg.reachable_blocks@
        };
    assert(crate::cfg::bfs_iter(successors(b1), crate::cfg::bfs_start(b1.len()), k) == crate::cfg::bfs_iter(
        successors(b0),
        crate::cfg::bfs_start(b0.len()),
        k,
    ));
    assert(is_traversal_of(b1, cfg));
}

/// Whether a read names a parameter index below `n` (or a known register).
pub open spec fn read_in_range(i: SSAInstruction, n: nat) -> bool {
    match i {
        GenInstruction::Move { arg: ArgRegister::BParam(j), .. } => j < n,
        GenInstruction::RustCall { arg: ArgRegister::BParam(j), .. } => j < n,
        _ => true,
    }
}

/// Every parameter read of the block names one of its parameters.
pub open spec fn reads_in_range(b: SSABlock) -> bool {
    forall|k: int| 0 <= k < b.instructions@.len() ==> read_in_range(#[trigger] b.instructions@[k], b.parameters@.len())
}

/// The one block that jumps to `t`, if exactly one does.
pub open spec fn sole_jumper(cfg: ControlFlowGraph, t: BlockId) -> Option<BlockId> {
    let js = join_jumpers(cfg, t.id as int);
    if js.len() == 1 {
        Some(js[0])
    } else {
        None
    }
}

/// Position of `b` in the traversal order.
pub open spec fn order_index(order: Seq<BlockId>, b: BlockId) -> int {
    choose|j: int| 0 <= j < order.len() && order[j] == b
}

/// What a block passes on, given what it received: what came in, overridden by its own
/// bindings, with each parameter bound to the value that came in for it.
pub open spec fn received(inh: Map<Var, SSAReg>, b: SSABlock) -> Map<Var, SSAReg> {
    inh.union_prefer_right(b.bindings()).union_prefer_right(inh.restrict(b.parameters@.to_set()))
}

/// The values passed on by the block at position `i` of the traversal order: a block
/// with a sole jumper earlier in the order receives what that jumper passes on; any other
/// block receives nothing.
pub open spec fn passed_on(blocks: Seq<SSABlock>, cfg: ControlFlowGraph, i: nat) -> Map<Var, SSAReg>
    decreases i,
{
    let order = cfg.approximate_toposort@;
    if i >= order.len() {
        Map::empty()
    } else {
        let t = order[i as int];
        let inh = match sole_jumper(cfg, t) {
            Some(p) => {
                let j = order_index(order, p);
                if 0 <= j < i {
                    passed_on(blocks, cfg, j as nat)
                } else {
                    Map::empty()
                }
            },
            None => Map::empty(),
        };
        received(inh, blocks[t.id as int])
    }
}

/// The values that reach the block at position `i` of the traversal order.
pub open spec fn incoming(blocks: Seq<SSABlock>, cfg: ControlFlowGraph, i: int) -> Map<Var, SSAReg> {
    let order = cfg.approximate_toposort@;
    match sole_jumper(cfg, order[i]) {
        Some(p) => {
            let j = order_index(order, p);
            if 0 <= j < i {
                passed_on(blocks, cfg, j as nat)
            } else {
                Map::empty()
            }
        },
        None => Map::empty(),
    }
}

/// The block at position `i` would receive a parameter from two or more jumpers whose
/// values were never merged.
pub open spec fn conflict_at(blocks: Seq<SSABlock>, cfg: ControlFlowGraph, i: int) -> bool {
    let t = cfg.approximate_toposort@[i];
    &&& blocks[t.id as int].parameters@.len() > 0
    &&& join_jumpers(cfg, t.id as int).len() >= 2
}

/// The block at position `i` can have all its parameters delivered: its reads name its
/// parameters, and if it has any, it has a sole jumper through which a value arrives for
/// each.
pub open spec fn delivered_at(blocks: Seq<SSABlock>, cfg: ControlFlowGraph, i: int) -> bool {
    let t = cfg.approximate_toposort@[i];
    let b = blocks[t.id as int];
    &&& reads_in_range(b)
    &&& b.parameters@.len() > 0 ==> sole_jumper(cfg, t) is Some && forall|v: Var|
        #[trigger] b.parameters@.contains(v) ==> incoming(blocks, cfg, i).contains_key(v)
}

/// After delivery, the block at position `i` has no parameters, no parameter reads,
/// and each former parameter bound to the value that reached it.
pub open spec fn delivered_into(before: Seq<SSABlock>, after: Seq<SSABlock>, cfg: ControlFlowGraph, i: int) -> bool {
    let t = cfg.approximate_toposort@[i].id as int;
    let b0 = before[t];
    let b1 = after[t];
    &&& b1.parameters@.len() == 0
    &&& b1.bindings() == b0.bindings().union_prefer_right(incoming(before, cfg, i).restrict(b0.parameters@.to_set()))
    &&& forall|k: int| 0 <= k < b1.instructions@.len() ==> !reads_param(#[trigger] b1.instructions@[k])
}

/// What reaches a block other than the entry block with a sole jumper is what that jumper
/// passes on, and the jumper comes earlier in the traversal order.
proof fn lemma_incoming(blocks: Seq<SSABlock>, cfg: ControlFlowGraph, i: int)
    requires
        analyzed(blocks, cfg),
        blocks.len() <= usize::MAX,
        0 <= i < cfg.approximate_toposort@.len(),
    ensures
        i > 0 && sole_jumper(cfg, cfg.approximate_toposort@[i]) is Some ==> {
            let p = sole_jumper(cfg, cfg.approximate_toposort@[i])->Some_0;
            let j = order_index(cfg.approximate_toposort@, p);
            &&& 0 <= j < i
            &&& cfg.approximate_toposort@[j] == p
            &&& incoming(blocks, cfg, i) == passed_on(blocks, cfg, j as nat)
        },
        i == 0 ==> incoming(blocks, cfg, i) == Map::<Var, SSAReg>::empty(),
        sole_jumper(cfg, cfg.approximate_toposort@[i]) is None ==> incoming(blocks, cfg, i) == Map::<Var, SSAReg>::empty(),
{
    let order = cfg.approximate_toposort@;
    let t = order[i];
    let js = join_jumpers(cfg, t.id as int);
    if i > 0 && js.len() == 1 {
        assert(found_from_earlier(successors(blocks), order, i));
        let j = choose|j: int| 0 <= j < i && #[trigger] successors(blocks)[order[j].id as int] == Some(order[i]);
        assert(order[j].id < blocks.len());
        crate::cfg::lemma_jumper_list_complete(cfg.block_jumps_to@, t, cfg.block_jumps_to@.len(), order[j].id as int);
        assert(js.contains(order[j]));
        assert(js[0] == order[j]);
        let x = order_index(order, js[0]);
        assert(0 <= x < order.len() && order[x] == js[0]);
        if x != j {
            assert(order[x] == order[j]);
        }
    }
    if i == 0 && js.len() == 1 {
        let x = order_index(order, js[0]);
    }
}

/// Every reachable block can have its parameters delivered.
pub open spec fn propagation_possible(blocks: Seq<SSABlock>, cfg: ControlFlowGraph) -> bool {
    forall|i: int| 0 <= i < cfg.approximate_toposort@.len() ==> #[trigger] delivered_at(blocks, cfg, i)
}

/// The last write of a variable in `a + b` is the last in `b`, or else the last in `a`.
pub proof fn lemma_populates_concat(a: Seq<(Var, SSAReg)>, b: Seq<(Var, SSAReg)>)
    ensures
        populates_map(a + b) == populates_map(a).union_prefer_right(populates_map(b)),
    decreases b.len(),
{
    if b.len() == 0 {
        assert(a + b =~= a);
        assert(populates_map(a).union_prefer_right(Map::empty()) =~= populates_map(a));
    } else {
        assert((a + b).drop_last() =~= a + b.drop_last());
        lemma_populates_concat(a, b.drop_last());
        assert(populates_map(a + b) =~= populates_map(a).union_prefer_right(populates_map(b)));
    }
}

/// Binding a parameter keeps every read naming a parameter.
proof fn lemma_rebind_in_range(b0: SSABlock, b1: SSABlock, k: int, reg: SSAReg)
    requires
        reads_in_range(b0),
        0 <= k < b0.parameters@.len(),
        b1.parameters@ == b0.parameters@.remove(k),
        b1.instructions@ == b0.instructions@.map_values(
            |i: SSAInstruction| crate::ssa::rebind_instruction(i, k as usize, reg),
        ),
    ensures
        reads_in_range(b1),
{
    assert forall|x: int| 0 <= x < b1.instructions@.len() implies read_in_range(
        #[trigger] b1.instructions@[x],
        b1.parameters@.len(),
    ) by {
        assert(read_in_range(b0.instructions@[x], b0.parameters@.len()));
    }
}

/// With no parameters left, a block whose reads name parameters reads none.
proof fn lemma_no_params_no_reads(b: SSABlock)
    requires
        reads_in_range(b),
        b.parameters@.len() == 0,
    ensures
        forall|k: int| 0 <= k < b.instructions@.len() ==> !reads_param(#[trigger] b.instructions@[k]),
{
    assert forall|k: int| 0 <= k < b.instructions@.len() implies !reads_param(#[trigger] b.instructions@[k]) by {
        assert(read_in_range(b.instructions@[k], 0));
    }
}

/// The pairs of `a`, copied.
fn copy_pairs(a: &Vec<(Var, SSAReg)>) -> (r: Vec<(Var, SSAReg)>)
    ensures
        r@ == a@,
{
    let mut r: Vec<(Var, SSAReg)> = Vec::new();
    let mut i: usize = 0;
    while i < a.len()
        invariant
            i <= a@.len(),
            r@ == a@.take(i as int),
        decreases a@.len() - i,
    {
        r.push(a[i]);
        assert(a@.take(i + 1) =~= a@.take(i as int).push(a@[i as int]));
        i = i + 1;
    }
    assert(a@.take(a@.len() as int) =~= a@);
    r
}

/// The register `v` was last written to in `p`, if any.
fn lookup(p: &Vec<(Var, SSAReg)>, v: Var) -> (r: Option<SSAReg>)
    ensures
        r == (if populates_map(p@).contains_key(v) {
            Some(populates_map(p@)[v])
        } else {
            None
        }),
{
    let b = SSABlock { parameters: Vec::new(), instructions: Vec::new(), populates: copy_pairs(p), complete: false };
    b.binding(v)
}

/// Whether every parameter read of the block names one of its parameters.
fn check_reads_in_range(b: &SSABlock) -> (r: bool)
    ensures
        r == reads_in_range(*b),
{
    let n = b.parameters.len();
    let mut k: usize = 0;
    while k < b.instructions.len()
        invariant
            n == b.parameters@.len(),
            k <= b.instructions@.len(),
            forall|x: int| 0 <= x < k ==> read_in_range(#[trigger] b.instructions@[x], n as nat),
        decreases b.instructions@.len() - k,
    {
        let ok = match b.instructions[k] {
            GenInstruction::Move { arg: ArgRegister::BParam(j), .. } => j < n,
            GenInstruction::RustCall { arg: ArgRegister::BParam(j), .. } => j < n,
            _ => true,
        };
        if !ok {
            return false;
        }
        k = k + 1;
    }
    true
}

impl SSA {
    /// Binds every parameter of block `t` to the value `inh` holds for it, or reports the
    /// first one `inh` lacks.
    fn bind_parameters(&mut self, t: BlockId, inh: &Vec<(Var, SSAReg)>) -> (ok: bool)
        requires
            t.id < old(self).blocks@.len(),
            reads_in_range(old(self).blocks@[t.id as int]),
        ensures
            final(self).blocks@.len() == old(self).blocks@.len(),
            forall|b: int| 0 <= b < old(self).blocks@.len() && b != t.id ==> #[trigger] final(self).blocks@[b] == old(self).blocks@[b],
            same_flow(old(self).blocks@[t.id as int], final(self).blocks@[t.id as int]),
            final(self).n_registers == old(self).n_registers,
            final(self).argument_registers == old(self).argument_registers,
            ok <==> forall|v: Var| #[trigger] old(self).blocks@[t.id as int].parameters@.contains(v) ==> populates_map(
                inh@,
            ).contains_key(v),
            ok ==> {
                let b0 = old(self).blocks@[t.id as int];
                let b1 = final(self).blocks@[t.id as int];
                &&& b1.parameters@.len() == 0
                &&& reads_in_range(b1)
                &&& b1.bindings() == b0.bindings().union_prefer_right(populates_map(inh@).restrict(b0.parameters@.to_set()))
            },
    {
        let ghost b0 = self.blocks@[t.id as int];
        let ghost p0 = b0.parameters@;
        let ghost m = populates_map(inh@);
        let ghost mut c: int = 0;
        assert(p0.skip(0) =~= p0);
        assert(p0.take(0).to_set() =~= Set::<Var>::empty());
        assert(m.restrict(Set::<Var>::empty()) =~= Map::<Var, SSAReg>::empty());
        assert(b0.bindings().union_prefer_right(Map::<Var, SSAReg>::empty()) =~= b0.bindings());
        while self.blocks[t.id].parameters.len() > 0
            invariant
                t.id < self.blocks@.len(),
                self.blocks@.len() == old(self).blocks@.len(),
                forall|b: int| 0 <= b < old(self).blocks@.len() && b != t.id ==> #[trigger] self.blocks@[b] == old(self).blocks@[b],
                self.n_registers == old(self).n_registers,
                self.argument_registers == old(self).argument_registers,
                b0 == old(self).blocks@[t.id as int],
                p0 == b0.parameters@,
                m == populates_map(inh@),
                0 <= c <= p0.len(),
                self.blocks@[t.id as int].parameters@ == p0.skip(c),
                forall|x: int| 0 <= x < c ==> m.contains_key(#[trigger] p0[x]),
                same_flow(b0, self.blocks@[t.id as int]),
                reads_in_range(self.blocks@[t.id as int]),
                self.blocks@[t.id as int].bindings() == b0.bindings().union_prefer_right(m.restrict(p0.take(c).to_set())),
            decreases p0.len() - c,
        {
            let v = self.blocks[t.id].parameters[0];
            assert(v == p0[c]);
            match lookup(inh, v) {
                Some(reg) => {
                    let ghost before = self.blocks@[t.id as int];
                    self.blocks[t.id].pipe_in_variable(v, reg);
                    proof {
                        let after = self.blocks@[t.id as int];
                        assert(before.parameters@.contains(v)) by {
                            assert(before.parameters@[0] == v);
                        }
                        let kk = choose|kk: int|
                            0 <= kk < before.parameters@.len() && before.parameters@[kk] == v
                                && (forall|j: int| 0 <= j < kk ==> before.parameters@[j] != v)
                                && after.parameters@ == before.parameters@.remove(kk)
                                && after.instructions@ == before.instructions@.map_values(
                                |i: SSAInstruction| crate::ssa::rebind_instruction(i, kk as usize, reg),
                            );
                        assert(kk == 0);
                        lemma_rebind_in_range(before, after, 0, reg);
                        crate::phantoms::lemma_same_flow_trans(b0, before, after);
                        assert(after.parameters@ =~= p0.skip(c + 1));
                        assert(p0.take(c + 1).to_set() =~= p0.take(c).to_set().insert(v)) by {
                            assert(p0.take(c + 1) =~= p0.take(c).push(v));
                            assert forall|x: Var| p0.take(c + 1).to_set().contains(x) <==> p0.take(c).to_set().insert(v).contains(x) by {
                                if p0.take(c + 1).contains(x) {
                                    let y = choose|y: int| 0 <= y < c + 1 && #[trigger] p0.take(c + 1)[y] == x;
                                    if y < c {
                                        assert(p0.take(c)[y] == x);
                                    }
                                }
                                if p0.take(c).contains(x) {
                                    let y = choose|y: int| 0 <= y < c && #[trigger] p0.take(c)[y] == x;
                                    assert(p0.take(c + 1)[y] == x);
                                }
                                if x == v {
                                    assert(p0.take(c + 1)[c] == x);
                                }
                            }
                        }
                        assert(after.bindings() =~= b0.bindings().union_prefer_right(
                            m.restrict(p0.take(c + 1).to_set()),
                        ));
                        c = c + 1;
                    }
                },
                None => {
                    proof {
                        assert(p0.contains(v));
                    }
                    return false;
                },
            }
        }
        proof {
            assert(p0.skip(c).len() == 0);
            assert(c == p0.len());
            assert(p0.take(c) =~= p0);
            assert forall|v: Var| #[trigger] p0.contains(v) implies m.contains_key(v) by {
                let x = choose|x: int| 0 <= x < p0.len() && p0[x] == v;
            }
        }
        true
    }

    /// Delivers values downwards, turning every parameter of every reachable block into
    /// the register that reaches it.
    ///
    /// Blocks are visited in traversal order. A block with a sole jumper receives what that
    /// jumper passes on; each of its parameters is bound (with `pipe_in_variable`) to the
    /// value received for it, and it passes on what it received overridden by its own
    /// bindings. Fails with `ConflictingSources` at the first block that has parameters
    /// and two or more jumpers (values reach it from sources never merged), and with
    /// `LeftoverParameter` at the first block whose parameters cannot all be delivered.
    /// The needed values are exactly the parameters, found through the jump structure, so
    /// `needs` is not consulted.
    pub fn eliminate_block_params(&mut self, cfg: &ControlFlowGraph, needs: &BlockNeeds) -> (r: Result<(), LowerError>)
        requires
            analyzed(old(self).blocks@, *cfg),
        ensures
            r is Ok <==> propagation_possible(old(self).blocks@, *cfg),
            r matches Err(e) ==> e is ConflictingSources || e is LeftoverParameter,
            r matches Err(LowerError::ConflictingSources(t, v)) ==> exists|i: int|
                0 <= i < cfg.approximate_toposort@.len() && #[trigger] cfg.approximate_toposort@[i] == t
                    && (forall|j: int| 0 <= j < i ==> delivered_at(old(self).blocks@, *cfg, j))
                    && conflict_at(old(self).blocks@, *cfg, i) && old(self).blocks@[t.id as int].parameters@.contains(v),
            r matches Err(LowerError::LeftoverParameter(t)) ==> exists|i: int|
                0 <= i < cfg.approximate_toposort@.len() && #[trigger] cfg.approximate_toposort@[i] == t
                    && (forall|j: int| 0 <= j < i ==> delivered_at(old(self).blocks@, *cfg, j))
                    && !delivered_at(old(self).blocks@, *cfg, i) && !conflict_at(old(self).blocks@, *cfg, i),
            r is Ok ==> forall|i: int|
                0 <= i < cfg.approximate_toposort@.len() ==> #[trigger] delivered_into(
                    old(self).blocks@,
                    final(self).blocks@,
                    *cfg,
                    i,
                ),
            final(self).blocks@.len() == old(self).blocks@.len(),
            forall|b: int| 0 <= b < old(self).blocks@.len() ==> same_flow(old(self).blocks@[b], #[trigger] final(self).blocks@[b]),
            analyzed(final(self).blocks@, *cfg),
            final(self).n_registers == old(self).n_registers,
            final(self).argument_registers == old(self).argument_registers,
    {
        let n = self.blocks.len();
        let ghost orig = self.blocks@;
        let order = &cfg.approximate_toposort;
        let mut outs: Vec<Vec<(Var, SSAReg)>> = Vec::new();
        let mut i: usize = 0;
        while i < n
            invariant
                i <= n,
                outs@.len() == i,
            decreases n - i,
        {
            outs.push(Vec::new());
            i = i + 1;
        }
        let mut i: usize = 0;
        while i < order.len()
            invariant
                analyzed(orig, *cfg),
                orig == old(self).blocks@,
                order == &cfg.approximate_toposort,
                n == orig.len(),
                outs@.len() == n,
                i <= order@.len(),
                self.blocks@.len() == n,
                forall|b: int| 0 <= b < n ==> same_flow(orig[b], #[trigger] self.blocks@[b]),
                self.n_registers == old(self).n_registers,
                self.argument_registers == old(self).argument_registers,
                forall|j: int| 0 <= j < i ==> #[trigger] delivered_at(orig, *cfg, j),
                forall|j: int|
                    0 <= j < i ==> populates_map((#[trigger] outs@[order@[j].id as int])@) == passed_on(
                        orig,
                        *cfg,
                        j as nat,
                    ),
                forall|j: int| 0 <= j < i ==> #[trigger] delivered_into(orig, self.blocks@, *cfg, j),
                forall|j: int| i <= j < order@.len() ==> #[trigger] self.blocks@[order@[j].id as int] == orig[order@[j].id as int],
            decreases order@.len() - i,
        {
            let t = order[i];
            let js = cfg.jumpers(t);
            // -- what reaches the block --
            let inh: Vec<(Var, SSAReg)> = if i > 0 && js.len() == 1 {
                copy_pairs(&outs[js[0].id])
            } else {
                Vec::new()
            };
            proof {
                lemma_incoming(orig, *cfg, i as int);
                if i > 0 && js@.len() == 1 {
                    let j = order_index(order@, js@[0]);
                    assert(0 <= j < i);
                    assert(outs@[order@[j].id as int] == outs@[js@[0].id as int]);
                } else {
                    assert(populates_map(inh@) =~= Map::<Var, SSAReg>::empty());
                }
                assert(populates_map(inh@) == incoming(orig, *cfg, i as int));
            }
            let ghost bi = self.blocks@[t.id as int];
            assert(bi == orig[t.id as int]);
            // -- unmerged values cannot be delivered --
            if self.blocks[t.id].parameters.len() > 0 && js.len() >= 2 {
                let v = self.blocks[t.id].parameters[0];
                proof {
                    assert(bi.parameters@.contains(v));
                    assert(conflict_at(orig, *cfg, i as int));
                    assert(!delivered_at(orig, *cfg, i as int));
                    lemma_analyzed_frame(orig, self.blocks@, *cfg);
                }
                return Err(LowerError::ConflictingSources(t, v));
            }
            if !check_reads_in_range(&self.blocks[t.id]) {
                proof {
                    assert(!delivered_at(orig, *cfg, i as int));
                    lemma_analyzed_frame(orig, self.blocks@, *cfg);
                }
                return Err(LowerError::LeftoverParameter(t));
            }
            if self.blocks[t.id].parameters.len() > 0 && js.len() != 1 {
                proof {
                    assert(bi.parameters@.contains(bi.parameters@[0]));
                    assert(!delivered_at(orig, *cfg, i as int));
                    lemma_analyzed_frame(orig, self.blocks@, *cfg);
                }
                return Err(LowerError::LeftoverParameter(t));
            }
            // -- bind each parameter to the value that reaches it --
            let ghost before = self.blocks@;
            if !self.bind_parameters(t, &inh) {
                proof {
                    assert(!delivered_at(orig, *cfg, i as int));
                    assert forall|b: int| 0 <= b < n implies same_flow(orig[b], #[trigger] self.blocks@[b]) by {
                        if b == t.id {
                            crate::phantoms::lemma_same_flow_trans(orig[b], before[b], self.blocks@[b]);
                        }
                    }
                    lemma_analyzed_frame(orig, self.blocks@, *cfg);
                }
                return Err(LowerError::LeftoverParameter(t));
            }
            proof {
                lemma_no_params_no_reads(self.blocks@[t.id as int]);
                assert(delivered_at(orig, *cfg, i as int));
                assert(delivered_into(orig, self.blocks@, *cfg, i as int));
                assert forall|j: int| 0 <= j < i implies #[trigger] delivered_into(orig, self.blocks@, *cfg, j) by {
                    assert(order@[j] != order@[i as int]);
                    assert(delivered_into(orig, before, *cfg, j));
                }
                assert forall|b: int| 0 <= b < n implies same_flow(orig[b], #[trigger] self.blocks@[b]) by {
                    if b == t.id {
                        crate::phantoms::lemma_same_flow_trans(orig[b], before[b], self.blocks@[b]);
                    }
                }
                assert forall|j: int| i + 1 <= j < order@.len() implies #[trigger] self.blocks@[order@[j].id as int] == orig[order@[j].id as int] by {
                    assert(order@[j] != order@[i as int]);
                }
            }
            // -- what the block passes on --
            let mut passed = inh;
            let mut own = copy_pairs(&self.blocks[t.id].populates);
            let ghost inh_seq = passed@;
            let ghost own_seq = own@;
            passed.append(&mut own);
            let ghost outs0 = outs@;
            outs.set(t.id, passed);
            proof {
                lemma_populates_concat(inh_seq, own_seq);
                assert(populates_map(outs@[t.id as int]@) =~= passed_on(orig, *cfg, i as nat));
                assert forall|j: int| 0 <= j < i implies populates_map((#[trigger] outs@[order@[j].id as int])@) == passed_on(
                    orig,
                    *cfg,
                    j as nat,
                ) by {
                    assert(order@[j] != order@[i as int]);
                    assert(outs@[order@[j].id as int] == outs0[order@[j].id as int]);
                }
            }
            i = i + 1;
        }
        proof {
            lemma_analyzed_frame(orig, self.blocks@, *cfg);
        }
        Ok(())
    }
}

} // verus!
