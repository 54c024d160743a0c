use vstd::prelude::*;

use crate::instruction::{is_terminator, label_of, GenInstruction};

verus! {

/// A source-level variable of the procedure being built. Equality is identity.
#[derive(Clone, Copy, Debug, PartialEq, Eq, Structural)]
pub struct Var {
    pub id: usize,
}

/// One SSA storage cell.
#[derive(Clone, Copy, Debug, PartialEq, Eq, Structural)]
pub struct SSAReg {
    pub id: usize,
}

/// Handle of a block in the procedure's block arena: its index there.
#[derive(Clone, Copy, Debug, PartialEq, Eq, Structural)]
pub struct BlockId {
    pub id: usize,
}

/// What a read resolved to: a known register, or the block's parameter of that index.
#[derive(Clone, Copy, Debug, PartialEq, Eq, Structural)]
pub enum ArgRegister {
    BParam(usize),
    Known(SSAReg),
}

pub type SSAInstruction = GenInstruction<SSAReg, ArgRegister, BlockId>;

/// The variable bindings a list of writes leaves behind: the last write of each variable wins.
pub open spec fn populates_map(p: Seq<(Var, SSAReg)>) -> Map<Var, SSAReg>
    decreases p.len(),
{
    if p.len() == 0 {
        Map::empty()
    } else {
        populates_map(p.drop_last()).insert(p.last().0, p.last().1)
    }
}

/// A read after parameter `k` was bound to `reg`: reads of it become `reg`, and
/// later parameters move down by one.
pub open spec fn rebind_read(a: ArgRegister, k: usize, reg: SSAReg) -> ArgRegister {
    match a {
        ArgRegister::BParam(j) => if j == k {
            ArgRegister::Known(reg)
        } else if j > k {
            ArgRegister::BParam((j - 1) as usize)
        } else {
            a
        },
        ArgRegister::Known(_) => a,
    }
}

pub open spec fn rebind_instruction(i: SSAInstruction, k: usize, reg: SSAReg) -> SSAInstruction {
    match i {
        GenInstruction::Move { out, arg } => GenInstruction::Move { out, arg: rebind_read(arg, k, reg) },
        GenInstruction::RustCall { rust_fn, out, arg } => GenInstruction::RustCall {
            rust_fn,
            out,
            arg: rebind_read(arg, k, reg),
        },
        _ => i,
    }
}

/// Two versions of a block that pass control alike: same completeness, same number of
/// instructions, and at each position the same kind of control transfer to the same label.
pub open spec fn same_flow(b0: SSABlock, b1: SSABlock) -> bool {
    &&& b1.complete == b0.complete
    &&& b1.instructions@.len() == b0.instructions@.len()
    &&& forall|k: int|
        0 <= k < b0.instructions@.len() ==> label_of(#[trigger] b1.instructions@[k]) == label_of(b0.instructions@[k])
            && is_terminator(b1.instructions@[k]) == is_terminator(b0.instructions@[k])
}

/// A block that ends in a jump or return, is marked complete, and has no terminator
/// before its last instruction.
pub open spec fn well_terminated(b: SSABlock) -> bool {
    &&& b.complete
    &&& b.instructions@.len() > 0
    &&& is_terminator(b.instructions@.last())
    &&& forall|k: int| 0 <= k < b.instructions@.len() - 1 ==> !is_terminator(#[trigger] b.instructions@[k])
}

/// One basic block.
pub struct SSABlock {
    /// Variables read here before any local write: they come from predecessors.
    pub parameters: Vec<Var>,
    pub instructions: Vec<SSAInstruction>,
    /// Local writes, in order; the last write of a variable is its binding.
    pub populates: Vec<(Var, SSAReg)>,
    /// Set once a jump or return is appended.
    pub complete: bool,
}

impl SSABlock {
    /// The block's variable bindings.
    pub open spec fn bindings(&self) -> Map<Var, SSAReg> {
        populates_map(self.populates@)
    }

    pub fn empty() -> (r: SSABlock)
        ensures
            r.parameters@.len() == 0,
            r.instructions@.len() == 0,
            r.populates@.len() == 0,
            !r.complete,
    {
        SSABlock { parameters: Vec::new(), instructions: Vec::new(), populates: Vec::new(), complete: false }
    }

    /// The register bound to `var` here, if any.
    pub fn binding(&self, var: Var) -> (r: Option<SSAReg>)
        ensures
            r == (if self.bindings().contains_key(var) {
                Some(self.bindings()[var])
            } else {
                None
            }),
    {
        let mut i: usize = self.populates.len();
        assert(self.populates@.take(self.populates@.len() as int) =~= self.populates@);
        while i > 0
            invariant
                i <= self.populates@.len(),
                populates_map(self.populates@.take(i as int)).contains_key(var) == populates_map(self.populates@).contains_key(
                    var,
                ),
                populates_map(self.populates@.take(i as int)).contains_key(var) ==> populates_map(
                    self.populates@.take(i as int),
                )[var] == populates_map(self.populates@)[var],
            decreases i,
        {
            assert(self.populates@.take(i as int).drop_last() =~= self.populates@.take(i - 1));
            assert(populates_map(self.populates@.take(i as int)) == populates_map(self.populates@.take(i - 1)).insert(
                self.populates@[i - 1].0,
                self.populates@[i - 1].1,
            ));
            if self.populates[i - 1].0 == var {
                assert(populates_map(self.populates@.take(i as int)).contains_key(var));
                assert(populates_map(self.populates@.take(i as int))[var] == self.populates@[i - 1].1);
                assert(populates_map(self.populates@)[var] == self.populates@[i - 1].1);
                return Some(self.populates[i - 1].1);
            }
            i = i - 1;
        }
        assert(self.populates@.take(0) =~= Seq::<(Var, SSAReg)>::empty());
        None
    }

    /// Whether the block ends in exactly one terminator.
    pub fn is_well_terminated(&self) -> (r: bool)
        ensures
            r == well_terminated(*self),
    {
        let n = self.instructions.len();
        if !self.complete || n == 0 || !self.instructions[n - 1].is_jump() {
            return false;
        }
        let mut k: usize = 0;
        while k + 1 < n
            invariant
                n == self.instructions@.len(),
                n > 0,
                k < n,
                forall|j: int| 0 <= j < k ==> !is_terminator(#[trigger] self.instructions@[j]),
            decreases n - k,
        {
            if self.instructions[k].is_jump() {
                return false;
            }
            k = k + 1;
        }
        true
    }

    /// Binds `var` to `reg`.
    pub fn bind(&mut self, var: Var, reg: SSAReg)
        ensures
            final(self).bindings() == old(self).bindings().insert(var, reg),
            final(self).populates@ == old(self).populates@.push((var, reg)),
            final(self).parameters == old(self).parameters,
            final(self).instructions == old(self).instructions,
            final(self).complete == old(self).complete,
    {
        let ghost p0 = self.populates@;
        self.populates.push((var, reg));
        assert(self.populates@.drop_last() =~= p0);
    }

    /// Index of `var` among the parameters, if it is one.
    pub fn parameter_index(&self, var: Var) -> (r: Option<usize>)
        ensures
            match r {
                Some(i) => i < self.parameters@.len() && self.parameters@[i as int] == var
                    && forall|j: int| 0 <= j < i ==> self.parameters@[j] != var,
                None => !self.parameters@.contains(var),
            },
    {
        let mut i: usize = 0;
        while i < self.parameters.len()
            invariant
                i <= self.parameters@.len(),
                forall|j: int| 0 <= j < i ==> self.parameters@[j] != var,
            decreases self.parameters@.len() - i,
        {
            if self.parameters[i] == var {
                return Some(i);
            }
            i = i + 1;
        }
        None
    }

    /// Binds parameter `var`, once its source register is known.
    ///
    /// If `var` is a parameter, it is removed; reads of it become `register`, and reads of
    /// later parameters follow them down by one. Either way the block's binding for `var`
    /// becomes `register`.
    pub fn pipe_in_variable(&mut self, var: Var, register: SSAReg)
        ensures
            final(self).complete == old(self).complete,
            same_flow(*old(self), *final(self)),
            final(self).bindings() == old(self).bindings().insert(var, register),
            !old(self).parameters@.contains(var) ==> final(self).parameters == old(self).parameters
                && final(self).instructions == old(self).instructions,
            old(self).parameters@.contains(var) ==> exists|k: int|
                0 <= k < old(self).parameters@.len() && old(self).parameters@[k] == var
                && (forall|j: int| 0 <= j < k ==> old(self).parameters@[j] != var)
                && final(self).parameters@ == old(self).parameters@.remove(k)
                && final(self).instructions@ == old(self).instructions@.map_values(
                    |i: SSAInstruction| rebind_instruction(i, k as usize, register),
                ),
    {
        match self.parameter_index(var) {
            Some(k) => {
                self.parameters.remove(k);
                let ghost params = self.parameters@;
                let ghost pops = self.populates@;
                let ghost done = self.complete;
                let n = self.instructions.len();
                let ghost before = self.instructions@;
                let mut i: usize = 0;
                while i < n
                    invariant
                        n == self.instructions@.len(),
                        before.len() == n,
                        self.parameters@ == params,
                        self.populates@ == pops,
                        self.complete == done,
                        i <= n,
                        forall|j: int|
                            0 <= j < i ==> self.instructions@[j] == rebind_instruction(
                                before[j],
                                k,
                                register,
                            ),
                        forall|j: int| i <= j < n ==> self.instructions@[j] == before[j],
                    decreases n - i,
                {
                    let inst = self.instructions[i];
                    let rebound = match inst {
                        GenInstruction::Move { out, arg } => GenInstruction::Move {
                            out,
                            arg: rebind_arg(arg, k, register),
                        },
                        GenInstruction::RustCall { rust_fn, out, arg } => GenInstruction::RustCall {
                            rust_fn,
                            out,
                            arg: rebind_arg(arg, k, register),
                        },
                        other => other,
                    };
                    self.instructions.set(i, rebound);
                    i = i + 1;
                }
                assert(forall|j: int| 0 <= j < n ==> label_of(#[trigger] self.instructions@[j]) == label_of(before[j])
                    && is_terminator(self.instructions@[j]) == is_terminator(before[j]));
                assert(self.instructions@ =~= before.map_values(
                    |i: SSAInstruction| rebind_instruction(i, k as usize, register),
                ));
            },
            None => {},
        }
        self.bind(var, register);
    }
}

fn rebind_arg(a: ArgRegister, k: usize, reg: SSAReg) -> (r: ArgRegister)
    ensures
        r == rebind_read(a, k, reg),
{
    match a {
        ArgRegister::BParam(j) => if j == k {
            ArgRegister::Known(reg)
        } else if j > k {
            ArgRegister::BParam(j - 1)
        } else {
            a
        },
        ArgRegister::Known(_) => a,
    }
}

} // verus!

verus! {

/// The IR store of one procedure: its blocks and registers, addressed by id.
///
/// Block 0 is the entry block, which the calling convention fills; the front end
/// starts writing code in the block it creates first.
pub struct SSA {
    pub blocks: Vec<SSABlock>,
    /// Registers are numbered `0..n_registers`.
    pub n_registers: usize,
    /// Which registers were created for which variable.
    pub variable_registers: Vec<(Var, SSAReg)>,
    /// Registers bound to the procedure's incoming arguments, with the argument's position.
    pub argument_registers: Vec<(SSAReg, usize)>,
}

impl SSA {
    pub open spec fn has_block(&self, b: BlockId) -> bool {
        b.id < self.blocks@.len()
    }

    /// Every block but `b` is as it was.
    pub open spec fn others_unchanged(&self, other: &SSA, b: BlockId) -> bool {
        &&& other.blocks@.len() == self.blocks@.len()
        &&& forall|j: int| 0 <= j < self.blocks@.len() && j != b.id ==> other.blocks@[j] == self.blocks@[j]
    }

    pub fn new() -> (r: SSA)
        ensures
            r.blocks@.len() == 1,
            r.blocks@[0].parameters@.len() == 0,
            r.blocks@[0].instructions@.len() == 0,
            r.blocks@[0].populates@.len() == 0,
            !r.blocks@[0].complete,
            r.n_registers == 0,
            r.variable_registers@.len() == 0,
            r.argument_registers@.len() == 0,
    {
        let mut ssa = SSA {
            blocks: Vec::new(),
            n_registers: 0,
            variable_registers: Vec::new(),
            argument_registers: Vec::new(),
        };
        ssa.create_block();
        ssa
    }

    /// Allocates a new, empty, incomplete block.
    pub fn create_block(&mut self) -> (r: BlockId)
        ensures
            r.id == old(self).blocks@.len(),
            final(self).blocks@.len() == old(self).blocks@.len() + 1,
            forall|j: int| 0 <= j < old(self).blocks@.len() ==> final(self).blocks@[j] == old(self).blocks@[j],
            final(self).blocks@[r.id as int].parameters@.len() == 0,
            final(self).blocks@[r.id as int].instructions@.len() == 0,
            final(self).blocks@[r.id as int].populates@.len() == 0,
            !final(self).blocks@[r.id as int].complete,
            final(self).n_registers == old(self).n_registers,
            final(self).variable_registers == old(self).variable_registers,
            final(self).argument_registers == old(self).argument_registers,
    {
        let id = BlockId { id: self.blocks.len() };
        self.blocks.push(SSABlock::empty());
        id
    }

    /// Allocates a new register, noting the variable it stands for, if any.
    pub fn create_register(&mut self, associated_variable: Option<Var>) -> (r: SSAReg)
        requires
            old(self).n_registers < usize::MAX,
        ensures
            r.id == old(self).n_registers,
            final(self).n_registers == old(self).n_registers + 1,
            final(self).blocks == old(self).blocks,
            final(self).argument_registers == old(self).argument_registers,
            final(self).variable_registers@ == match associated_variable {
                Some(v) => old(self).variable_registers@.push((v, r)),
                None => old(self).variable_registers@,
            },
    {
        let id = SSAReg { id: self.n_registers };
        self.n_registers = self.n_registers + 1;
        if let Some(var) = associated_variable {
            self.variable_registers.push((var, id));
        }
        id
    }

    /// Reads `variable` in `block`: its local binding if there is one, else the block's
    /// parameter for it, which is added if missing.
    pub fn read_variable(&mut self, block: BlockId, variable: Var) -> (r: ArgRegister)
        requires
            old(self).has_block(block),
        ensures
            old(self).others_unchanged(final(self), block),
            final(self).n_registers == old(self).n_registers,
            final(self).variable_registers == old(self).variable_registers,
            final(self).argument_registers == old(self).argument_registers,
            ({
                let b0 = old(self).blocks@[block.id as int];
                let b1 = final(self).blocks@[block.id as int];
                &&& b1.instructions == b0.instructions
                &&& b1.populates == b0.populates
                &&& b1.complete == b0.complete
                &&& if b0.bindings().contains_key(variable) {
                    r == ArgRegister::Known(b0.bindings()[variable]) && b1.parameters == b0.parameters
                } else if b0.parameters@.contains(variable) {
                    b1.parameters == b0.parameters && (r matches ArgRegister::BParam(k)
                        && k < b0.parameters@.len() && b0.parameters@[k as int] == variable)
                } else {
                    b1.parameters@ == b0.parameters@.push(variable) && r == ArgRegister::BParam(
                        b0.parameters@.len() as usize,
                    )
                }
            }),
    {
        let data = &mut self.blocks[block.id];
        if let Some(v) = data.binding(variable) {
            ArgRegister::Known(v)
        } else if let Some(ix) = data.parameter_index(variable) {
            ArgRegister::BParam(ix)
        } else {
            let ix = data.parameters.len();
            data.parameters.push(variable);
            ArgRegister::BParam(ix)
        }
    }

    /// Writes `variable` in `block`, into a fresh register.
    pub fn write_variable(&mut self, block: BlockId, variable: Var) -> (r: SSAReg)
        requires
            old(self).has_block(block),
            !old(self).blocks@[block.id as int].complete,
            old(self).n_registers < usize::MAX,
        ensures
            r.id == old(self).n_registers,
            final(self).n_registers == old(self).n_registers + 1,
            old(self).others_unchanged(final(self), block),
            final(self).argument_registers == old(self).argument_registers,
            final(self).variable_registers@ == old(self).variable_registers@.push((variable, r)),
            ({
                let b0 = old(self).blocks@[block.id as int];
                let b1 = final(self).blocks@[block.id as int];
                &&& b1.instructions == b0.instructions
                &&& b1.parameters == b0.parameters
                &&& b1.complete == b0.complete
                &&& b1.bindings() == b0.bindings().insert(variable, r)
                &&& b1.populates@ == b0.populates@.push((variable, r))
            }),
    {
        let reg = self.create_register(None);
        self.write_variable_reg(block, variable, reg)
    }

    /// Writes `variable` in `block`, into an existing register.
    pub fn write_variable_reg(&mut self, block: BlockId, variable: Var, register: SSAReg) -> (r: SSAReg)
        requires
            old(self).has_block(block),
            !old(self).blocks@[block.id as int].complete,
        ensures
            r == register,
            final(self).n_registers == old(self).n_registers,
            old(self).others_unchanged(final(self), block),
            final(self).argument_registers == old(self).argument_registers,
            final(self).variable_registers@ == old(self).variable_registers@.push((variable, register)),
            ({
                let b0 = old(self).blocks@[block.id as int];
                let b1 = final(self).blocks@[block.id as int];
                &&& b1.instructions == b0.instructions
                &&& b1.parameters == b0.parameters
                &&& b1.complete == b0.complete
                &&& b1.bindings() == b0.bindings().insert(variable, register)
                &&& b1.populates@ == b0.populates@.push((variable, register))
            }),
    {
        self.blocks[block.id].bind(variable, register);
        self.variable_registers.push((variable, register));
        register
    }

    /// Appends `instruction` to `block`; a jump or return completes the block.
    pub fn add_instruction(&mut self, block: BlockId, instruction: SSAInstruction)
        requires
            old(self).has_block(block),
            !old(self).blocks@[block.id as int].complete,
        ensures
            final(self).n_registers == old(self).n_registers,
            old(self).others_unchanged(final(self), block),
            final(self).variable_registers == old(self).variable_registers,
            final(self).argument_registers == old(self).argument_registers,
            ({
                let b0 = old(self).blocks@[block.id as int];
                let b1 = final(self).blocks@[block.id as int];
                &&& b1.instructions@ == b0.instructions@.push(instruction)
                &&& b1.parameters == b0.parameters
                &&& b1.populates == b0.populates
                &&& b1.complete == is_terminator(instruction)
            }),
    {
        let data = &mut self.blocks[block.id];
        data.instructions.push(instruction);
        if instruction.is_jump() {
            data.complete = true;
        }
    }
}

} // verus!
