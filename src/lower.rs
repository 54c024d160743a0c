use vstd::prelude::*;

use crate::cfg::{analyzed, flow_ok, successor, ControlFlowGraph};
use crate::codegen::{generated_from, reads_param};
use crate::error::LowerError;
use crate::instruction::{is_terminator, GenInstruction, Instruction};
use crate::ssa::{well_terminated, BlockId, SSABlock, SSAReg, Var, SSA};

verus! {

/// A store the pipeline can lower: at least one block besides the entry block; the entry
/// block either ends in exactly one terminator or holds none yet (it is then routed into
/// the first user block); every other block ends in exactly one terminator; every final
/// jump names a block.
pub open spec fn input_well_formed(blocks: Seq<SSABlock>) -> bool {
    &&& blocks.len() >= 2
    &&& blocks[0].complete ==> well_terminated(blocks[0])
    &&& !blocks[0].complete ==> forall|k: int|
        0 <= k < blocks[0].instructions@.len() ==> !is_terminator(#[trigger] blocks[0].instructions@[k])
    &&& forall|i: int| 1 <= i < blocks.len() ==> well_terminated(#[trigger] blocks[i])
    &&& forall|i: int|
        0 <= i < blocks.len() && blocks[i].complete ==> match successor(blocks, i) {
            Some(t) => t.id < blocks.len(),
            None => true,
        }
}

/// After the entry block is routed, the store is well formed exactly when the input was.
proof fn lemma_routed(b0: Seq<SSABlock>, b1: Seq<SSABlock>)
    requires
        b0.len() >= 2,
        b1.len() == b0.len(),
        forall|i: int| 1 <= i < b0.len() ==> #[trigger] b1[i] == b0[i],
        b0[0].complete ==> b1 == b0,
        !b0[0].complete ==> b1[0].complete && b1[0].instructions@ == b0[0].instructions@.push(
            GenInstruction::Jump { label: BlockId { id: 1 } },
        ),
    ensures
        flow_ok(b1) <==> input_well_formed(b0),
{
    if !b0[0].complete {
        let e = b1[0].instructions@;
        let n = e.len();
        assert(e[n - 1] == (crate::ssa::SSAInstruction::Jump { label: BlockId { id: 1 } }));
        assert(successor(b1, 0) == Some(BlockId { id: 1 }));
        if input_well_formed(b0) {
            assert forall|k: int| 0 <= k < n - 1 implies !is_terminator(#[trigger] e[k]) by {
                assert(e[k] == b0[0].instructions@[k]);
            }
            assert forall|i: int| 0 <= i < b1.len() implies well_terminated(#[trigger] b1[i]) && match successor(b1, i) {
                Some(t) => t.id < b1.len(),
                None => true,
            } by {
                if i > 0 {
                    assert(b1[i] == b0[i]);
                }
            }
        }
        if flow_ok(b1) {
            assert(well_terminated(b1[0]));
            assert forall|k: int| 0 <= k < b0[0].instructions@.len() implies !is_terminator(
                #[trigger] b0[0].instructions@[k],
            ) by {
                assert(b0[0].instructions@[k] == e[k]);
            }
            assert forall|i: int| 1 <= i < b0.len() implies well_terminated(#[trigger] b0[i]) by {
                assert(b1[i] == b0[i]);
                assert(well_terminated(b1[i]));
            }
            assert forall|i: int| 0 <= i < b0.len() && b0[i].complete implies match successor(b0, i) {
                Some(t) => t.id < b0.len(),
                None => true,
            } by {
                assert(b1[i] == b0[i]);
                assert(well_terminated(b1[i]));
            }
        }
    } else {
        if flow_ok(b1) {
            assert forall|i: int| 1 <= i < b0.len() implies well_terminated(#[trigger] b0[i]) by {
                assert(well_terminated(b1[i]));
            }
        }
    }
}

impl SSA {
    /// Lowers the procedure to bytecode.
    ///
    /// The steps: end the entry block with its jump into user code (so that a join block
    /// in front of the first user block can take that edge too); route every return
    /// through one final block; compute the needs of each block; insert join blocks; bind
    /// the entry block's needs to the procedure's arguments `args`; check the needs;
    /// deliver values downwards; lay the code out. Any internal inconsistency stops
    /// lowering with its error.
    pub fn lower(self, args: &Vec<Var>) -> (r: Result<Vec<Instruction>, LowerError>)
        ensures
            r == Err::<Vec<Instruction>, LowerError>(LowerError::NoUserBlock) <==> self.blocks@.len() < 2,
            r matches Err(e) && (e is NoUserBlock || e is IncompleteBlock || e is BadJumpTarget) <==> !input_well_formed(
                self.blocks@,
            ),
            (forall|b: int| 0 <= b < self.blocks@.len() ==> (#[trigger] self.blocks@[b]).parameters@.no_duplicates())
                ==> !(r matches Err(LowerError::DuplicateParameter(_))),
            r matches Err(LowerError::MissingArgument(v)) ==> !args@.contains(v),
            r matches Ok(code) ==> exists|bs: Seq<SSABlock>, cfg: ControlFlowGraph, regs: Seq<(SSAReg, usize)>|
                analyzed(bs, cfg) && #[trigger] generated_from(bs, cfg.approximate_toposort@, regs, code@)
                    && forall|j: int, k: int|
                    0 <= j < cfg.approximate_toposort@.len() && 0 <= k < bs[cfg.approximate_toposort@[j].id as int].instructions@.len()
                        ==> !reads_param(#[trigger] bs[cfg.approximate_toposort@[j].id as int].instructions@[k]),
            r matches Ok(code) ==> forall|x: int|
                0 <= x < code@.len() ==> match #[trigger] code@[x] {
                    GenInstruction::Jump { label } => label < code@.len(),
                    _ => true,
                },
    {
        let ghost input = self.blocks@;
        let mut ssa = self;
        match ssa.route_entry_block() {
            Ok(()) => {},
            Err(e) => {
                return Err(e);
            },
        }
        proof {
            lemma_routed(input, ssa.blocks@);
        }
        let ghost routed = ssa.blocks@;
        let cfg = match ssa.analyze_cfg() {
            Ok(c) => c,
            Err(e) => {
                return Err(e);
            },
        };
        ssa.generate_final_block(&cfg);
        let ghost finished = ssa.blocks@;
        proof {
            assert(flow_ok(routed));
            assert forall|b: int| 0 <= b < input.len() implies #[trigger] finished[b].parameters == input[b].parameters by {
                assert(finished[b].parameters == routed[b].parameters);
            }
        }
        let cfg = match ssa.analyze_cfg() {
            Ok(c) => c,
            Err(e) => {
                proof {
                    assert(false);
                }
                return Err(e);
            },
        };
        let needs = ssa.block_needs(&cfg);
        match ssa.generate_phantoms(&cfg, &needs) {
            Ok(()) => {},
            Err(e) => {
                return Err(e);
            },
        }

        if ssa.n_registers > usize::MAX - needs.block_needs[0].len() {
            return Err(LowerError::TooManyRegisters);
        }
        match ssa.prepare_initial_block(&needs, args) {
            Ok(()) => {},
            Err(e) => {
                return Err(e);
            },
        }

        let cfg = match ssa.analyze_cfg() {
            Ok(c) => c,
            Err(e) => {
                return Err(e);
            },
        };
        match ssa.assert_needs_make_sense(&cfg, &needs) {
            Ok(()) => {},
            Err(e) => {
                return Err(e);
            },
        }
        match ssa.eliminate_block_params(&cfg, &needs) {
            Ok(()) => {},
            Err(e) => {
                return Err(e);
            },
        }
        let code = ssa.generate_code(&cfg);
        proof {
            if code is Ok {
                let c = code->Ok_0;
                assert(analyzed(ssa.blocks@, cfg) && generated_from(ssa.blocks@, cfg.approximate_toposort@, ssa.argument_registers@, c@));
            }
        }
        code
    }
}

} // verus!
