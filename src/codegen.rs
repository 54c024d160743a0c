use vstd::prelude::*;

use crate::cfg::{analyzed, successors, ControlFlowGraph};
use crate::error::LowerError;
use crate::instruction::{label_of, GenInstruction, Instruction, Register};
use crate::ssa::{well_terminated, ArgRegister, BlockId, SSABlock, SSAInstruction, SSAReg, SSA};

verus! {

broadcast use vstd::seq::Seq::lemma_filter_push;

/// The block laid out after position `j` of `order`, if any.
pub open spec fn next_of(order: Seq<BlockId>, j: int) -> Option<BlockId> {
    if j + 1 < order.len() {
        Some(order[j + 1])
    } else {
        None
    }
}

/// A jump to the block laid out next, which falling through makes unnecessary.
pub open spec fn is_fallthrough(i: SSAInstruction, next: Option<BlockId>) -> bool {
    match i {
        GenInstruction::Jump { label } => next == Some(label),
        _ => false,
    }
}

/// A block's instructions with the jump to the next block dropped.
pub open spec fn elided(insts: Seq<SSAInstruction>, next: Option<BlockId>) -> Seq<SSAInstruction> {
    insts.filter(|i: SSAInstruction| !is_fallthrough(i, next))
}

/// The code of the first `j` blocks of `order`, one after the other.
pub open spec fn layout_upto(blocks: Seq<SSABlock>, order: Seq<BlockId>, j: nat) -> Seq<SSAInstruction>
    decreases j,
{
    if j == 0 {
        Seq::empty()
    } else {
        layout_upto(blocks, order, (j - 1) as nat) + elided(
            blocks[order[j - 1].id as int].instructions@,
            next_of(order, j - 1),
        )
    }
}

/// A jump in `i` goes to a block reached from the entry block.
pub open spec fn jumps_to_reachable(cfg: ControlFlowGraph, n: nat, i: SSAInstruction) -> bool {
    match i {
        GenInstruction::Jump { label } => label.id < n && cfg.reachable_blocks@[label.id as int],
        _ => true,
    }
}

pub proof fn lemma_layout_grows(blocks: Seq<SSABlock>, order: Seq<BlockId>, a: nat, b: nat)
    requires
        a <= b,
    ensures
        layout_upto(blocks, order, a).len() <= layout_upto(blocks, order, b).len(),
    decreases b - a,
{
    if a < b {
        lemma_layout_grows(blocks, order, a, (b - 1) as nat);
    }
}

/// The last block laid out emits all its instructions, so every block starts before the
/// end of the code.
pub proof fn lemma_layout_ends_after_every_start(blocks: Seq<SSABlock>, order: Seq<BlockId>)
    requires
        order.len() > 0,
        order.last().id < blocks.len(),
        well_terminated(blocks[order.last().id as int]),
    ensures
        forall|jj: int| 0 <= jj < order.len() ==> (#[trigger] layout_upto(blocks, order, jj as nat)).len() < layout_upto(
            blocks,
            order,
            order.len(),
        ).len(),
{
    let last = (order.len() - 1) as nat;
    let insts = blocks[order[last as int].id as int].instructions@;
    let pred = |i: SSAInstruction| !is_fallthrough(i, next_of(order, last as int));
    assert(next_of(order, last as int) is None);
    lemma_filter_keeps_all(insts, pred);
    assert forall|jj: int| 0 <= jj < order.len() implies (#[trigger] layout_upto(blocks, order, jj as nat)).len() < layout_upto(
        blocks,
        order,
        order.len(),
    ).len() by {
        lemma_layout_grows(blocks, order, jj as nat, last);
    }
}

/// Whether an instruction reads a block parameter.
pub open spec fn reads_param(i: SSAInstruction) -> bool {
    match i {
        GenInstruction::Move { arg, .. } => arg is BParam,
        GenInstruction::RustCall { arg, .. } => arg is BParam,
        _ => false,
    }
}

/// The argument position a register is bound to (the latest binding wins).
pub open spec fn arg_slot(s: Seq<(SSAReg, usize)>, r: SSAReg) -> Option<usize>
    decreases s.len(),
{
    if s.len() == 0 {
        None
    } else if s.last().0 == r {
        Some(s.last().1)
    } else {
        arg_slot(s.drop_last(), r)
    }
}

/// The physical register of an SSA register: its argument slot, or a local of its number.
pub open spec fn physical(s: Seq<(SSAReg, usize)>, r: SSAReg) -> Register {
    match arg_slot(s, r) {
        Some(k) => Register::Arg(k),
        None => Register::Local(r.id),
    }
}

/// `c` is `i` with its registers made physical (jump labels are checked apart).
pub open spec fn resolved(s: Seq<(SSAReg, usize)>, i: SSAInstruction, c: Instruction) -> bool {
    match (i, c) {
        (GenInstruction::Move { out, arg: ArgRegister::Known(a) }, GenInstruction::Move { out: o2, arg: a2 }) =>
            o2 == physical(s, out) && a2 == physical(s, a),
        (
            GenInstruction::RustCall { rust_fn, out, arg: ArgRegister::Known(a) },
            GenInstruction::RustCall { rust_fn: f2, out: o2, arg: a2 },
        ) => f2 == rust_fn && o2 == physical(s, out) && a2 == physical(s, a),
        (GenInstruction::Jump { .. }, GenInstruction::Jump { .. }) => true,
        (GenInstruction::Return {  }, GenInstruction::Return {  }) => true,
        _ => false,
    }
}

/// Emits a block's instructions, dropping a jump to `next`.
pub fn emit_block(insts: &Vec<SSAInstruction>, next: Option<BlockId>, out: &mut Vec<SSAInstruction>)
    ensures
        final(out)@ == old(out)@ + elided(insts@, next),
        forall|x: int| old(out)@.len() <= x < final(out)@.len() ==> insts@.contains(#[trigger] final(out)@[x]),
{
    let ghost start = out@;
    let ghost mut src: Seq<int> = Seq::empty();
    let mut k: usize = 0;
    while k < insts.len()
        invariant
            k <= insts@.len(),
            out@ == start + elided(insts@.take(k as int), next),
            src.len() + start.len() == out@.len(),
            forall|x: int| 0 <= x < src.len() ==> 0 <= #[trigger] src[x] < insts@.len() && out@[start.len() + x] == insts@[src[x]],
        decreases insts@.len() - k,
    {
        let inst = insts[k];
        let skip = match inst {
            GenInstruction::Jump { label } => match next {
                Some(nb) => label == nb,
                None => false,
            },
            _ => false,
        };
        proof {
            assert(insts@.take(k + 1) =~= insts@.take(k as int).push(insts@[k as int]));
        }
        if !skip {
            out.push(inst);
            proof {
                src = src.push(k as int);
            }
        }
        k = k + 1;
    }
    assert(insts@.take(insts@.len() as int) =~= insts@);
    assert forall|x: int| start.len() <= x < out@.len() implies insts@.contains(#[trigger] out@[x]) by {
        let i = x - start.len();
        assert(0 <= src[i] < insts@.len() && out@[start.len() + i] == insts@[src[i]]);
    }
}

/// A block that ends in a jump to the block laid out next loses that jump; a jump
/// anywhere else stays.
pub proof fn lemma_fallthrough_elision(body: Seq<SSAInstruction>, b1: BlockId, b2: BlockId)
    requires
        forall|k: int| 0 <= k < body.len() ==> !(#[trigger] body[k] is Jump),
        b1 != b2,
    ensures
        elided(body.push(GenInstruction::Jump { label: b1 }), Some(b1)) == body,
        elided(body.push(GenInstruction::Jump { label: b2 }), Some(b1)) == body.push(
            GenInstruction::Jump { label: b2 },
        ),
{
    let pred = |i: SSAInstruction| !is_fallthrough(i, Some(b1));
    lemma_filter_keeps_all(body, pred);
    assert(body.push(GenInstruction::Jump { label: b1 }).filter(pred) == body.filter(pred));
    assert(body.push(GenInstruction::Jump { label: b2 }).filter(pred) == body.filter(pred).push(
        GenInstruction::Jump { label: b2 },
    ));
}

proof fn lemma_filter_keeps_all(s: Seq<SSAInstruction>, pred: spec_fn(SSAInstruction) -> bool)
    requires
        forall|k: int| 0 <= k < s.len() ==> pred(#[trigger] s[k]),
    ensures
        s.filter(pred) == s,
    decreases s.len(),
{
    if s.len() > 0 {
        lemma_filter_keeps_all(s.drop_last(), pred);
        assert(s.drop_last().push(s.last()) =~= s);
        assert(s.drop_last().push(s.last()).filter(pred) == s.drop_last().filter(pred).push(s.last()));
    }
}

impl SSA {
    /// The physical register for an SSA register: the argument slot it was bound to by
    /// the calling convention, or else a local of the same number.
    pub fn resolve_ssa_reg(&self, w: SSAReg) -> (r: Register)
        ensures
            r == physical(self.argument_registers@, w),
    {
        let mut i: usize = self.argument_registers.len();
        assert(self.argument_registers@.take(i as int) =~= self.argument_registers@);
        while i > 0
            invariant
                i <= self.argument_registers@.len(),
                arg_slot(self.argument_registers@, w) == arg_slot(self.argument_registers@.take(i as int), w),
            decreases i,
        {
            assert(self.argument_registers@.take(i as int).drop_last() =~= self.argument_registers@.take(i - 1));
            let (reg, slot) = self.argument_registers[i - 1];
            if reg == w {
                return Register::Arg(slot);
            }
            i = i - 1;
        }
        Register::Local(w.id)
    }

    fn resolve_instruction(&self, i: SSAInstruction) -> (c: GenInstruction<Register, Register, BlockId>)
        requires
            !reads_param(i),
        ensures
            match (i, c) {
                (GenInstruction::Move { out, arg: ArgRegister::Known(a) }, GenInstruction::Move { out: o2, arg: a2 }) =>
                    o2 == physical(self.argument_registers@, out) && a2 == physical(self.argument_registers@, a),
                (
                    GenInstruction::RustCall { rust_fn, out, arg: ArgRegister::Known(a) },
                    GenInstruction::RustCall { rust_fn: f2, out: o2, arg: a2 },
                ) => f2 == rust_fn && o2 == physical(self.argument_registers@, out) && a2 == physical(
                    self.argument_registers@,
                    a,
                ),
                (GenInstruction::Jump { label }, GenInstruction::Jump { label: l2 }) => l2 == label,
                (GenInstruction::Return {  }, GenInstruction::Return {  }) => true,
                _ => false,
            },
    {
        match i {
            GenInstruction::Move { out, arg: ArgRegister::Known(a) } => GenInstruction::Move {
                out: self.resolve_ssa_reg(out),
                arg: self.resolve_ssa_reg(a),
            },
            GenInstruction::RustCall { rust_fn, out, arg: ArgRegister::Known(a) } => GenInstruction::RustCall {
                rust_fn,
                out: self.resolve_ssa_reg(out),
                arg: self.resolve_ssa_reg(a),
            },
            GenInstruction::Jump { label } => GenInstruction::Jump { label },
            _ => GenInstruction::Return {  },
        }
    }
}

/// The generated code matches the laid-out code: registers made physical, and each
/// jump sent to the offset where its target block starts.
pub open spec fn generated_from(
    blocks: Seq<SSABlock>,
    order: Seq<BlockId>,
    slots: Seq<(SSAReg, usize)>,
    code: Seq<Instruction>,
) -> bool {
    let laid = layout_upto(blocks, order, order.len());
    &&& code.len() == laid.len()
    &&& forall|x: int| 0 <= x < code.len() ==> resolved(slots, laid[x], #[trigger] code[x])
    &&& forall|x: int|
        0 <= x < code.len() && (#[trigger] code[x]) is Jump ==> exists|j: int|
            0 <= j < order.len() && laid[x] == (SSAInstruction::Jump { label: order[j] })
                && code[x] == (Instruction::Jump { label: layout_upto(blocks, order, j as nat).len() as usize })
}

impl SSA {
    /// Lays the reachable blocks out in traversal order, dropping each jump to the block
    /// that comes next, then makes registers physical and jump labels absolute offsets.
    ///
    /// Fails when a laid-out block still reads a block parameter, or when a jump target
    /// is not laid out inside the code.
    pub fn generate_code(&self, cfg: &ControlFlowGraph) -> (r: Result<Vec<Instruction>, LowerError>)
        requires
            analyzed(self.blocks@, *cfg),
        ensures
            r matches Err(e) ==> e is LeftoverParameter,
            r is Ok <==> forall|j: int, k: int|
                0 <= j < cfg.approximate_toposort@.len() && 0 <= k < self.blocks@[cfg.approximate_toposort@[j].id as int].instructions@.len()
                    ==> !reads_param(#[trigger] self.blocks@[cfg.approximate_toposort@[j].id as int].instructions@[k]),
            r matches Ok(code) ==> {
                &&& generated_from(self.blocks@, cfg.approximate_toposort@, self.argument_registers@, code@)
                &&& forall|x: int|
                    0 <= x < code@.len() ==> match #[trigger] code@[x] {
                        GenInstruction::Jump { label } => label < code@.len(),
                        _ => true,
                    }
                &&& forall|j: int, k: int|
                    0 <= j < cfg.approximate_toposort@.len() && 0 <= k < self.blocks@[cfg.approximate_toposort@[j].id as int].instructions@.len()
                        ==> !reads_param(#[trigger] self.blocks@[cfg.approximate_toposort@[j].id as int].instructions@[k])
            },
    {
        let order = &cfg.approximate_toposort;
        let n = self.blocks.len();
        let mut addresses: Vec<Option<usize>> = Vec::new();
        let mut i: usize = 0;
        while i < n
            invariant
                i <= n,
                addresses@.len() == i,
                forall|b: int| 0 <= b < i ==> #[trigger] addresses@[b] is None,
            decreases n - i,
        {
            addresses.push(None);
            i = i + 1;
        }
        // -- lay out --
        let mut laid: Vec<SSAInstruction> = Vec::new();
        let mut j: usize = 0;
        while j < order.len()
            invariant
                analyzed(self.blocks@, *cfg),
                order == &cfg.approximate_toposort,
                n == self.blocks@.len(),
                addresses@.len() == n,
                j <= order@.len(),
                laid@ == layout_upto(self.blocks@, order@, j as nat),
                forall|x: int| 0 <= x < laid@.len() ==> !reads_param(#[trigger] laid@[x]),
                forall|x: int| 0 <= x < laid@.len() ==> jumps_to_reachable(*cfg, n as nat, #[trigger] laid@[x]),
                forall|jj: int| 0 <= jj < j ==> #[trigger] addresses@[order@[jj].id as int] == Some(
                    layout_upto(self.blocks@, order@, jj as nat).len() as usize,
                ),
                forall|b: int| 0 <= b < n && #[trigger] addresses@[b] is Some ==> exists|jj: int|
                    0 <= jj < j && order@[jj].id == b,
                forall|jj: int, k: int|
                    0 <= jj < j && 0 <= k < self.blocks@[order@[jj].id as int].instructions@.len()
                        ==> !reads_param(#[trigger] self.blocks@[order@[jj].id as int].instructions@[k]),
            decreases order@.len() - j,
        {
            let b = order[j];
            let insts = &self.blocks[b.id].instructions;
            // -- a parameter read at this stage means a value never arrived --
            let mut k: usize = 0;
            while k < insts.len()
                invariant
                    k <= insts@.len(),
                    j < order@.len(),
                    order == &cfg.approximate_toposort,
                    b == order@[j as int],
                    insts == &self.blocks@[b.id as int].instructions,
                    forall|kk: int| 0 <= kk < k ==> !reads_param(#[trigger] insts@[kk]),
                decreases insts@.len() - k,
            {
                match insts[k] {
                    GenInstruction::Move { arg: ArgRegister::BParam(_), .. } => {
                        proof {
                            assert(reads_param(self.blocks@[order@[j as int].id as int].instructions@[k as int]));
                        }
                        return Err(LowerError::LeftoverParameter(b));
                    },
                    GenInstruction::RustCall { arg: ArgRegister::BParam(_), .. } => {
                        proof {
                            assert(reads_param(self.blocks@[order@[j as int].id as int].instructions@[k as int]));
                        }
                        return Err(LowerError::LeftoverParameter(b));
                    },
                    _ => {},
                }
                k = k + 1;
            }
            proof {
                assert(layout_upto(self.blocks@, order@, j as nat).len() == laid@.len());
            }
            let ghost a0 = addresses@;
            addresses.set(b.id, Some(laid.len()));
            let next = if j + 1 < order.len() {
                Some(order[j + 1])
            } else {
                None
            };
            let ghost laid0 = laid@;
            emit_block(insts, next, &mut laid);
            proof {
                assert forall|x: int| 0 <= x < laid@.len() implies !reads_param(#[trigger] laid@[x])
                    && jumps_to_reachable(*cfg, n as nat, laid@[x]) by {
                    if x >= laid0.len() {
                        assert(insts@.contains(laid@[x]));
                        let kk = choose|kk: int| 0 <= kk < insts@.len() && insts@[kk] == laid@[x];
                        assert(!reads_param(insts@[kk]));
                        assert(well_terminated(self.blocks@[b.id as int]));
                        if laid@[x] is Jump {
                            assert(kk == insts@.len() - 1);
                            assert(cfg.reachable_blocks@[b.id as int]) by {
                                assert(cfg.approximate_toposort@[j as int].id == b.id);
                            }
                            assert(successors(self.blocks@)[b.id as int] == label_of(laid@[x]));
                        }
                    } else {
                        assert(laid@[x] == laid0[x]);
                    }
                }
                assert(laid@ == layout_upto(self.blocks@, order@, (j + 1) as nat));
                assert forall|jj: int| 0 <= jj < j + 1 implies #[trigger] addresses@[order@[jj].id as int] == Some(
                    layout_upto(self.blocks@, order@, jj as nat).len() as usize,
                ) by {
                    if jj < j {
                        assert(order@[jj] != order@[j as int]);
                        assert(a0[order@[jj].id as int] == addresses@[order@[jj].id as int]);
                    }
                }
                assert forall|bb: int| 0 <= bb < n && #[trigger] addresses@[bb] is Some implies exists|jj: int|
                    0 <= jj < j + 1 && order@[jj].id == bb by {
                    if bb != b.id {
                        assert(a0[bb] is Some);
                        let jj = choose|jj: int| 0 <= jj < j && order@[jj].id == bb;
                        assert(0 <= jj < j + 1 && order@[jj].id == bb);
                    } else {
                        assert(order@[j as int].id == bb);
                    }
                }
            }
            j = j + 1;
        }
        proof {
            if order@.len() > 0 {
                lemma_layout_ends_after_every_start(self.blocks@, order@);
            }
            assert(order@.len() > 0) by {
                assert(cfg.reachable_blocks@[0]);
            }
        }
        // -- make registers physical and labels absolute --
        let ghost laid_spec = layout_upto(self.blocks@, order@, order@.len());
        let mut code: Vec<Instruction> = Vec::new();
        let mut x: usize = 0;
        while x < laid.len()
            invariant
                analyzed(self.blocks@, *cfg),
                order == &cfg.approximate_toposort,
                n == self.blocks@.len(),
                addresses@.len() == n,
                laid@ == laid_spec,
                laid_spec == layout_upto(self.blocks@, order@, order@.len()),
                forall|y: int| 0 <= y < laid@.len() ==> !reads_param(#[trigger] laid@[y]),
                forall|y: int| 0 <= y < laid@.len() ==> jumps_to_reachable(*cfg, n as nat, #[trigger] laid@[y]),
                forall|jj: int| 0 <= jj < order@.len() ==> (#[trigger] layout_upto(self.blocks@, order@, jj as nat)).len() < laid@.len(),
                forall|jj: int, k: int|
                    0 <= jj < order@.len() && 0 <= k < self.blocks@[order@[jj].id as int].instructions@.len()
                        ==> !reads_param(#[trigger] self.blocks@[order@[jj].id as int].instructions@[k]),
                x <= laid@.len(),
                code@.len() == x,
                forall|jj: int| 0 <= jj < order@.len() ==> #[trigger] addresses@[order@[jj].id as int] == Some(
                    layout_upto(self.blocks@, order@, jj as nat).len() as usize,
                ),
                forall|b: int| 0 <= b < n && #[trigger] addresses@[b] is Some ==> exists|jj: int|
                    0 <= jj < order@.len() && order@[jj].id == b,
                forall|y: int| 0 <= y < x ==> resolved(self.argument_registers@, laid_spec[y], #[trigger] code@[y]),
                forall|y: int|
                    0 <= y < x && (#[trigger] code@[y]) is Jump ==> exists|jj: int|
                        0 <= jj < order@.len() && laid_spec[y] == (SSAInstruction::Jump { label: order@[jj] })
                            && code@[y] == (Instruction::Jump {
                            label: layout_upto(self.blocks@, order@, jj as nat).len() as usize,
                        }),
                forall|y: int|
                    0 <= y < x ==> match #[trigger] code@[y] {
                        GenInstruction::Jump { label } => label < laid@.len(),
                        _ => true,
                    },
            decreases laid@.len() - x,
        {
            let inst = laid[x];
            let c = self.resolve_instruction(inst);
            let done: Instruction = match c {
                GenInstruction::Move { out, arg } => GenInstruction::Move { out, arg },
                GenInstruction::RustCall { rust_fn, out, arg } => GenInstruction::RustCall { rust_fn, out, arg },
                GenInstruction::Return {  } => GenInstruction::Return {  },
                GenInstruction::Jump { label } => {
                    proof {
                        assert(jumps_to_reachable(*cfg, n as nat, laid@[x as int]));
                        assert(cfg.reachable_blocks@[label.id as int]);
                        let jj = choose|jj: int| 0 <= jj < order@.len() && order@[jj].id == label.id;
                        assert(addresses@[order@[jj].id as int] == Some(
                            layout_upto(self.blocks@, order@, jj as nat).len() as usize,
                        ));
                    }
                    if label.id >= n {
                        return Err(LowerError::BadJumpTarget(label));
                    }
                    match addresses[label.id] {
                        Some(a) => {
                            if a >= laid.len() {
                                return Err(LowerError::BadJumpTarget(label));
                            }
                            proof {
                                let jj = choose|jj: int| 0 <= jj < order@.len() && order@[jj].id == label.id;
                                assert(addresses@[order@[jj].id as int] == Some(
                                    layout_upto(self.blocks@, order@, jj as nat).len() as usize,
                                ));
                                assert(order@[jj] == label);
                            }
                            GenInstruction::Jump { label: a }
                        },
                        None => {
                            return Err(LowerError::BadJumpTarget(label));
                        },
                    }
                },
            };
            code.push(done);
            x = x + 1;
        }
        Ok(code)
    }
}

} // verus!
