use vstd::prelude::*;

use crate::cfg::{analyzed, flow_ok, successor, ControlFlowGraph};
use crate::error::LowerError;
use crate::instruction::GenInstruction;
use crate::needs::BlockNeeds;
use crate::ssa::{well_terminated, BlockId, SSABlock, Var, SSA};
use crate::instruction::is_terminator;

verus! {

/// `i` with a return turned into a jump to `to`.
pub open spec fn return_redirected(i: crate::ssa::SSAInstruction, to: BlockId) -> crate::ssa::SSAInstruction {
    match i {
        GenInstruction::Return {  } => GenInstruction::Jump { label: to },
        _ => i,
    }
}

/// Whether `needs` (by block id) holds `v` for block `b`; blocks past its end need nothing.
pub open spec fn needed(needs: BlockNeeds, b: int, v: Var) -> bool {
    b < needs.block_needs@.len() && needs.block_needs@[b]@.contains(v)
}

pub open spec fn has_needs(needs: BlockNeeds, b: int) -> bool {
    b < needs.block_needs@.len() && needs.block_needs@[b]@.len() > 0
}

pub open spec fn jumper_count_at_least(cfg: ControlFlowGraph, t: int, k: nat) -> bool {
    exists|s: Set<int>|
        s.finite() && s.len() >= k && forall|p: int| #[trigger] s.contains(p) ==> 0 <= p < cfg.block_jumps_to@.len()
            && cfg.block_jumps_to@[p] == Some(BlockId { id: t as usize })
}

/// What the needs check asks of each reachable block with needs: the entry block is
/// not jumped to and binds every need; a block with more than one jumper has no
/// parameters left and binds every need.
pub open spec fn needs_make_sense(blocks: Seq<SSABlock>, cfg: ControlFlowGraph, needs: BlockNeeds) -> bool {
    forall|i: int|
        0 <= i < cfg.approximate_toposort@.len() && has_needs(needs, #[trigger] cfg.approximate_toposort@[i].id as int)
            ==> {
            let t = cfg.approximate_toposort@[i].id as int;
            &&& t == 0 ==> !jumper_count_at_least(cfg, t, 1)
            &&& (t == 0 || jumper_count_at_least(cfg, t, 2)) ==> {
                &&& t != 0 ==> blocks[t].parameters@.len() == 0
                &&& forall|v: Var| needed(needs, t, v) ==> #[trigger] blocks[t].bindings().contains_key(v)
            }
        }
}

proof fn lemma_jumper_count(cfg: ControlFlowGraph, t: BlockId, js: Seq<BlockId>)
    requires
        cfg.block_jumps_to@.len() <= usize::MAX,
        js.no_duplicates(),
        forall|i: int| 0 <= i < js.len() ==> (#[trigger] js[i]).id < cfg.block_jumps_to@.len(),
        forall|p: int|
            0 <= p < cfg.block_jumps_to@.len() ==> (js.contains(BlockId { id: p as usize })
                <==> #[trigger] cfg.block_jumps_to@[p] == Some(t)),
    ensures
        jumper_count_at_least(cfg, t.id as int, 1) <==> js.len() >= 1,
        jumper_count_at_least(cfg, t.id as int, 2) <==> js.len() >= 2,
{
    let ids = js.map_values(|b: BlockId| b.id as int);
    assert(ids.no_duplicates()) by {
        assert forall|a: int, b: int| 0 <= a < ids.len() && 0 <= b < ids.len() && a != b implies ids[a] != ids[b] by {
            assert(js[a] != js[b]);
        }
    }
    ids.unique_seq_to_set();
    let s = ids.to_set();
    assert forall|p: int| #[trigger] s.contains(p) implies 0 <= p < cfg.block_jumps_to@.len()
        && cfg.block_jumps_to@[p] == Some(BlockId { id: t.id as usize }) by {
        let i = choose|i: int| 0 <= i < ids.len() && ids[i] == p;
        assert(js[i].id == p);
        assert(js[i] == BlockId { id: p as usize });
    }
    assert(s.finite());
    assert(s.len() == js.len());
    assert forall|k: nat| jumper_count_at_least(cfg, t.id as int, k) implies js.len() >= k by {
        let s2 = choose|s2: Set<int>|
            s2.finite() && s2.len() >= k && forall|p: int| #[trigger] s2.contains(p) ==> 0 <= p < cfg.block_jumps_to@.len()
                && cfg.block_jumps_to@[p] == Some(BlockId { id: t.id as usize });
        assert(s2.subset_of(s)) by {
            assert forall|p: int| s2.contains(p) implies s.contains(p) by {
                assert(0 <= p < cfg.block_jumps_to@.len());
                assert(js.contains(BlockId { id: p as usize }));
                let i = choose|i: int| 0 <= i < js.len() && js[i] == BlockId { id: p as usize };
                assert(ids[i] == js[i].id as int);
                assert(ids[i] == p);
            }
        }
        vstd::set_lib::lemma_len_subset(s2, s);
    }
    if js.len() >= 1 {
        assert(jumper_count_at_least(cfg, t.id as int, 1));
    }
    if js.len() >= 2 {
        assert(jumper_count_at_least(cfg, t.id as int, 2));
    }
}

impl SSA {
    /// Creates the one block that returns, and turns every return of a reachable block
    /// into a jump to it.
    pub fn generate_final_block(&mut self, cfg: &ControlFlowGraph) -> (r: BlockId)
        requires
            cfg.reachable_blocks@.len() == old(self).blocks@.len(),
        ensures
            r.id == old(self).blocks@.len(),
            final(self).blocks@.len() == old(self).blocks@.len() + 1,
            final(self).blocks@[r.id as int].instructions@ == seq![
                GenInstruction::<crate::ssa::SSAReg, crate::ssa::ArgRegister, BlockId>::Return {  },
            ],
            final(self).blocks@[r.id as int].parameters@.len() == 0,
            final(self).blocks@[r.id as int].populates@.len() == 0,
            final(self).blocks@[r.id as int].complete,
            final(self).n_registers == old(self).n_registers,
            final(self).argument_registers == old(self).argument_registers,
            flow_ok(old(self).blocks@) ==> flow_ok(final(self).blocks@),
            forall|b: int|
                0 <= b < old(self).blocks@.len() ==> {
                    let b0 = old(self).blocks@[b];
                    let b1 = #[trigger] final(self).blocks@[b];
                    &&& b1.parameters == b0.parameters
                    &&& b1.populates == b0.populates
                    &&& b1.complete == b0.complete
                    &&& b1.instructions@ == if cfg.reachable_blocks@[b] && b0.instructions@.len() > 0 {
                        b0.instructions@.update(
                            b0.instructions@.len() - 1,
                            return_redirected(b0.instructions@.last(), r),
                        )
                    } else {
                        b0.instructions@
                    }
                },
    {
        let n0 = self.blocks.len();
        let final_block = self.create_block();
        let mut b: usize = 0;
        while b < n0
            invariant
                n0 == old(self).blocks@.len(),
                cfg.reachable_blocks@.len() == n0,
                final_block.id == n0,
                self.blocks@.len() == n0 + 1,
                b <= n0,
                self.n_registers == old(self).n_registers,
                self.argument_registers == old(self).argument_registers,
                self.blocks@[n0 as int].instructions@.len() == 0,
                self.blocks@[n0 as int].parameters@.len() == 0,
                self.blocks@[n0 as int].populates@.len() == 0,
                !self.blocks@[n0 as int].complete,
                forall|j: int| b <= j < n0 ==> #[trigger] self.blocks@[j] == old(self).blocks@[j],
                forall|j: int|
                    0 <= j < b ==> {
                        let b0 = old(self).blocks@[j];
                        let b1 = #[trigger] self.blocks@[j];
                        &&& b1.parameters == b0.parameters
                        &&& b1.populates == b0.populates
                        &&& b1.complete == b0.complete
                        &&& b1.instructions@ == if cfg.reachable_blocks@[j] && b0.instructions@.len() > 0 {
                            b0.instructions@.update(
                                b0.instructions@.len() - 1,
                                return_redirected(b0.instructions@.last(), final_block),
                            )
                        } else {
                            b0.instructions@
                        }
                    },
            decreases n0 - b,
        {
            if cfg.reachable_blocks[b] {
                let data = &mut self.blocks[b];
                let len = data.instructions.len();
                if len > 0 {
                    if let GenInstruction::Return {  } = data.instructions[len - 1] {
                        data.instructions.set(len - 1, GenInstruction::Jump { label: final_block });
                    }
                }
            }
            b = b + 1;
        }
        self.add_instruction(final_block, GenInstruction::Return {  });
        proof {
            assert(self.blocks@[n0 as int].instructions@ =~= seq![
                GenInstruction::<crate::ssa::SSAReg, crate::ssa::ArgRegister, BlockId>::Return {  },
            ]);
            if flow_ok(old(self).blocks@) {
                assert forall|i: int| 0 <= i < self.blocks@.len() implies well_terminated(#[trigger] self.blocks@[i])
                    && match successor(self.blocks@, i) {
                    Some(t) => t.id < self.blocks@.len(),
                    None => true,
                } by {
                    if i < n0 {
                        assert(well_terminated(old(self).blocks@[i]));
                        let b0 = old(self).blocks@[i];
                        let b1 = self.blocks@[i];
                        assert forall|k: int| 0 <= k < b1.instructions@.len() - 1 implies !is_terminator(
                            #[trigger] b1.instructions@[k],
                        ) by {
                            assert(b1.instructions@[k] == b0.instructions@[k]);
                        }
                        assert(successor(old(self).blocks@, i) is Some ==> successor(old(self).blocks@, i)->Some_0.id
                            < n0);
                    }
                }
            }
        }
        final_block
    }

    /// Binds each variable the entry block needs to a fresh register for the incoming
    /// argument of the same variable, then, if the entry block is still open, ends it with
    /// a jump to the first block of user code.
    ///
    /// Fails when the entry block needs a variable that `args` does not hold (the first
    /// such need is reported).
    pub fn prepare_initial_block(&mut self, needs: &BlockNeeds, args: &Vec<Var>) -> (r: Result<(), LowerError>)
        requires
            old(self).blocks@.len() >= 1,
            needs.block_needs@.len() >= 1,
            old(self).n_registers + needs.block_needs@[0]@.len() <= usize::MAX,
        ensures
            final(self).blocks@.len() == old(self).blocks@.len(),
            forall|b: int| 1 <= b < old(self).blocks@.len() ==> #[trigger] final(self).blocks@[b] == old(self).blocks@[b],
            r is Ok <==> forall|v: Var| needs.block_needs@[0]@.contains(v) ==> args@.contains(v),
            r matches Err(e) ==> e is MissingArgument,
            r matches Err(LowerError::MissingArgument(v)) ==> needs.block_needs@[0]@.contains(v) && !args@.contains(v),
            r is Ok ==> (flow_ok(old(self).blocks@) ==> flow_ok(final(self).blocks@)),
            r is Ok ==> {
                let e = final(self).blocks@[0];
                let e0 = old(self).blocks@[0];
                &&& e.complete
                &&& e.parameters == e0.parameters
                &&& e0.complete ==> e.instructions == e0.instructions
                &&& !e0.complete ==> e.instructions@ == e0.instructions@.push(
                    GenInstruction::Jump { label: BlockId { id: 1 } },
                )
                &&& forall|v: Var| needs.block_needs@[0]@.contains(v) ==> #[trigger] e.bindings().contains_key(v)
                    && exists|k: int| 0 <= k < final(self).argument_registers@.len()
                        && final(self).argument_registers@[k].0 == e.bindings()[v]
                        && args@[final(self).argument_registers@[k].1 as int] == v
                        && final(self).argument_registers@[k].1 < args@.len()
            },
    {
        let entry_needs = &needs.block_needs[0];
        // -- every need must be an argument --
        let mut i: usize = 0;
        while i < entry_needs.len()
            invariant
                entry_needs == &needs.block_needs@[0],
                self.blocks@ == old(self).blocks@,
                i <= entry_needs@.len(),
                forall|j: int| 0 <= j < i ==> args@.contains(#[trigger] entry_needs@[j]),
            decreases entry_needs@.len() - i,
        {
            let need = entry_needs[i];
            if position_of(args, need).is_none() {
                assert(entry_needs@.contains(need) && !args@.contains(need));
                return Err(LowerError::MissingArgument(need));
            }
            i = i + 1;
        }
        // -- bind each need to its argument's register --
        let mut i: usize = 0;
        while i < entry_needs.len()
            invariant
                entry_needs == &needs.block_needs@[0],
                old(self).blocks@.len() >= 1,
                i <= entry_needs@.len(),
                forall|j: int| 0 <= j < entry_needs@.len() ==> args@.contains(#[trigger] entry_needs@[j]),
                self.n_registers + entry_needs@.len() - i <= usize::MAX,
                self.blocks@.len() == old(self).blocks@.len(),
                forall|b: int| 1 <= b < old(self).blocks@.len() ==> #[trigger] self.blocks@[b] == old(self).blocks@[b],
                self.blocks@[0].complete == old(self).blocks@[0].complete,
                self.blocks@[0].parameters == old(self).blocks@[0].parameters,
                self.blocks@[0].instructions == old(self).blocks@[0].instructions,
                forall|j: int| 0 <= j < i ==> {
                    let v = #[trigger] entry_needs@[j];
                    let e = self.blocks@[0];
                    &&& e.bindings().contains_key(v)
                    &&& exists|k: int| 0 <= k < self.argument_registers@.len()
                        && self.argument_registers@[k].0 == e.bindings()[v]
                        && args@[self.argument_registers@[k].1 as int] == v
                        && self.argument_registers@[k].1 < args@.len()
                },
            decreases entry_needs@.len() - i,
        {
            let need = entry_needs[i];
            let pos = position_of(args, need);
            if let Some(p) = pos {
                let ghost e0 = self.blocks@[0];
                let ghost ar0 = self.argument_registers@;
                let reg = self.create_register(Some(need));
                self.blocks[0].bind(need, reg);
                self.argument_registers.push((reg, p));
                proof {
                    let e = self.blocks@[0];
                    assert forall|j: int| 0 <= j < i + 1 implies {
                        let v = #[trigger] entry_needs@[j];
                        &&& e.bindings().contains_key(v)
                        &&& exists|k: int| 0 <= k < self.argument_registers@.len()
                            && self.argument_registers@[k].0 == e.bindings()[v]
                            && args@[self.argument_registers@[k].1 as int] == v
                            && self.argument_registers@[k].1 < args@.len()
                    } by {
                        let v = entry_needs@[j];
                        if v == need {
                            let k = self.argument_registers@.len() - 1;
                            assert(self.argument_registers@[k] == (reg, p));
                        } else {
                            let k = choose|k: int| 0 <= k < ar0.len() && ar0[k].0 == e0.bindings()[v]
                                && args@[ar0[k].1 as int] == v && ar0[k].1 < args@.len();
                            assert(self.argument_registers@[k] == ar0[k]);
                        }
                    }
                }
            }
            i = i + 1;
        }
        proof {
            assert forall|v: Var| needs.block_needs@[0]@.contains(v) implies #[trigger] self.blocks@[0].bindings().contains_key(v)
                && exists|k: int| 0 <= k < self.argument_registers@.len()
                    && self.argument_registers@[k].0 == self.blocks@[0].bindings()[v]
                    && args@[self.argument_registers@[k].1 as int] == v
                    && self.argument_registers@[k].1 < args@.len() by {
                let j = choose|j: int| 0 <= j < entry_needs@.len() && entry_needs@[j] == v;
                assert(entry_needs@[j] == v);
            }
            if flow_ok(old(self).blocks@) {
                crate::phantoms::lemma_flow_ok_same_flow(old(self).blocks@, self.blocks@, 0);
            }
        }
        // -- the entry block then passes control into user code --
        if !self.blocks[0].complete {
            let ghost bound = self.blocks@[0].bindings();
            let ghost regs = self.argument_registers@;
            self.add_instruction(BlockId { id: 0 }, GenInstruction::Jump { label: BlockId { id: 1 } });
            assert(self.blocks@[0].bindings() == bound);
        }
        Ok(())
    }

    /// Ends the entry block with its jump to the first block of user code, unless it
    /// already ends in a terminator.
    pub fn route_entry_block(&mut self) -> (r: Result<(), LowerError>)
        ensures
            r is Ok <==> old(self).blocks@.len() >= 2,
            r matches Err(e) ==> e is NoUserBlock,
            final(self).blocks@.len() == old(self).blocks@.len(),
            forall|b: int| 1 <= b < old(self).blocks@.len() ==> #[trigger] final(self).blocks@[b] == old(self).blocks@[b],
            r is Ok ==> final(self).blocks@[0].complete,
            r is Ok && !old(self).blocks@[0].complete ==> final(self).blocks@[0].instructions@ == old(
                self,
            ).blocks@[0].instructions@.push(GenInstruction::Jump { label: BlockId { id: 1 } })
                && final(self).blocks@[0].parameters == old(self).blocks@[0].parameters,
            old(self).blocks@[0].complete ==> final(self).blocks@ == old(self).blocks@,
            final(self).n_registers == old(self).n_registers,
            final(self).argument_registers == old(self).argument_registers,
    {
        if self.blocks.len() < 2 {
            return Err(LowerError::NoUserBlock);
        }
        if !self.blocks[0].complete {
            self.add_instruction(BlockId { id: 0 }, GenInstruction::Jump { label: BlockId { id: 1 } });
        }
        Ok(())
    }
}

/// The first index of `v` in `s`, if any.
pub fn position_of(s: &Vec<Var>, v: Var) -> (r: Option<usize>)
    ensures
        match r {
            Some(i) => i < s@.len() && s@[i as int] == v && forall|j: int| 0 <= j < i ==> s@[j] != v,
            None => !s@.contains(v),
        },
{
    let mut i: usize = 0;
    while i < s.len()
        invariant
            i <= s@.len(),
            forall|j: int| 0 <= j < i ==> s@[j] != v,
        decreases s@.len() - i,
    {
        if s[i] == v {
            return Some(i);
        }
        i = i + 1;
    }
    None
}

impl SSA {
    /// Whether block `b` binds every one of `vars`.
    fn binds_all(&self, b: usize, vars: &Vec<Var>) -> (r: bool)
        requires
            b < self.blocks@.len(),
        ensures
            r == forall|v: Var| vars@.contains(v) ==> #[trigger] self.blocks@[b as int].bindings().contains_key(v),
    {
        let mut i: usize = 0;
        while i < vars.len()
            invariant
                b < self.blocks@.len(),
                i <= vars@.len(),
                forall|j: int| 0 <= j < i ==> self.blocks@[b as int].bindings().contains_key(#[trigger] vars@[j]),
            decreases vars@.len() - i,
        {
            if self.blocks[b].binding(vars[i]).is_none() {
                assert(vars@.contains(vars@[i as int]));
                return false;
            }
            i = i + 1;
        }
        proof {
            assert forall|v: Var| vars@.contains(v) implies #[trigger] self.blocks@[b as int].bindings().contains_key(v) by {
                let j = choose|j: int| 0 <= j < vars@.len() && vars@[j] == v;
                assert(self.blocks@[b as int].bindings().contains_key(vars@[j]));
            }
        }
        true
    }

    /// Checks, after join insertion, that every reachable block with needs will get its
    /// values: the entry block is not jumped to and binds its needs, and a block with
    /// more than one jumper has no parameters left and binds its needs. `needs` is the
    /// result of the needs calculation before join insertion.
    pub fn assert_needs_make_sense(&self, cfg: &ControlFlowGraph, needs: &BlockNeeds) -> (r: Result<(), LowerError>)
        requires
            analyzed(self.blocks@, *cfg),
        ensures
            r is Ok <==> needs_make_sense(self.blocks@, *cfg, *needs),
            r matches Err(e) ==> e is EntryJumpedTo || e is UnresolvedJoin,
    {
        let order = &cfg.approximate_toposort;
        let n = self.blocks.len();
        let nj = cfg.block_jumps_to.len();
        let mut i: usize = 0;
        while i < order.len()
            invariant
                analyzed(self.blocks@, *cfg),
                order == &cfg.approximate_toposort,
                n == self.blocks@.len(),
                nj == cfg.block_jumps_to@.len(),
                i <= order@.len(),
                forall|j: int|
                    0 <= j < i && has_needs(*needs, #[trigger] order@[j].id as int) ==> {
                        let t = order@[j].id as int;
                        &&& t == 0 ==> !jumper_count_at_least(*cfg, t, 1)
                        &&& (t == 0 || jumper_count_at_least(*cfg, t, 2)) ==> {
                            &&& t != 0 ==> self.blocks@[t].parameters@.len() == 0
                            &&& forall|v: Var| needed(*needs, t, v) ==> #[trigger] self.blocks@[t].bindings().contains_key(v)
                        }
                    },
            decreases order@.len() - i,
        {
            let t = order[i];
            if t.id < needs.block_needs.len() && needs.block_needs[t.id].len() > 0 {
                let js = cfg.jumpers(t);
                proof {
                    lemma_jumper_count(*cfg, t, js@);
                }
                let t_needs = &needs.block_needs[t.id];
                if t.id == 0 && js.len() > 0 {
                    return Err(LowerError::EntryJumpedTo);
                }
                if t.id == 0 || js.len() > 1 {
                    if t.id != 0 && self.blocks[t.id].parameters.len() > 0 {
                        return Err(LowerError::UnresolvedJoin(t));
                    }
                    if !self.binds_all(t.id, t_needs) {
                        return Err(LowerError::UnresolvedJoin(t));
                    }
                }
            }
            i = i + 1;
        }
        Ok(())
    }
}

} // verus!
