use vstd::prelude::*;

verus! {

/// Handle of a foreign function that bytecode can call.
#[derive(Clone, Copy, Debug, PartialEq, Eq, Structural)]
pub struct RustFn {
    pub id: usize,
}

/// A physical register of the bytecode interpreter.
#[derive(Clone, Copy, Debug, PartialEq, Eq, Structural)]
pub enum Register {
    Arg(usize),
    Local(usize),
}

/// One instruction, over a write-slot type, a read-slot type and a jump-label type.
///
/// The same shapes serve while a procedure is built (symbolic slots) and after
/// code generation (physical registers and absolute offsets).
#[derive(Clone, Copy, Debug, PartialEq, Eq)]
pub enum GenInstruction<Write, Read, Label> {
    Move { out: Write, arg: Read },
    /// A by-reference call into foreign code: `out` and `arg` name the same location.
    RustCall { rust_fn: RustFn, out: Write, arg: Read },
    Jump { label: Label },
    Return {},
}

/// An instruction as the interpreter runs it.
pub type Instruction = GenInstruction<Register, Register, usize>;

/// Whether an instruction transfers control (and so ends its block).
pub open spec fn is_terminator<W, R, L>(i: GenInstruction<W, R, L>) -> bool {
    i is Jump || i is Return
}

/// The label an instruction jumps to, if any.
pub open spec fn label_of<W, R, L>(i: GenInstruction<W, R, L>) -> Option<L> {
    match i {
        GenInstruction::Jump { label } => Some(label),
        _ => None,
    }
}

impl<Write, Read, Label> GenInstruction<Write, Read, Label> {
    /// Whether this instruction transfers control: a jump or a return.
    pub fn is_jump(&self) -> (r: bool)
        ensures
            r == is_terminator(*self),
    {
        match self {
            GenInstruction::Jump { .. } => true,
            GenInstruction::Return {  } => true,
            _ => false,
        }
    }

    /// The jump label, for a jump.
    pub fn for_label(&self) -> (r: Option<&Label>)
        ensures
            match label_of(*self) {
                Some(l) => r == Some(&l),
                None => r is None,
            },
    {
        match self {
            GenInstruction::Jump { label } => Some(label),
            _ => None,
        }
    }

    /// Passes every read slot through `f`.
    pub fn map_read<Read2, F: Fn(Read) -> Read2>(self, f: F) -> (r: GenInstruction<Write, Read2, Label>)
        requires
            forall|x: Read| f.requires((x,)),
        ensures
            match (self, r) {
                (GenInstruction::Move { out, arg }, GenInstruction::Move { out: o2, arg: a2 }) =>
                    o2 == out && f.ensures((arg,), a2),
                (
                    GenInstruction::RustCall { rust_fn, out, arg },
                    GenInstruction::RustCall { rust_fn: f2, out: o2, arg: a2 },
                ) => f2 == rust_fn && o2 == out && f.ensures((arg,), a2),
                (GenInstruction::Jump { label }, GenInstruction::Jump { label: l2 }) => l2 == label,
                (GenInstruction::Return {  }, GenInstruction::Return {  }) => true,
                _ => false,
            },
    {
        match self {
            GenInstruction::Move { out, arg } => GenInstruction::Move { out, arg: f(arg) },
            GenInstruction::RustCall { rust_fn, out, arg } => GenInstruction::RustCall {
                rust_fn,
                out,
                arg: f(arg),
            },
            GenInstruction::Jump { label } => GenInstruction::Jump { label },
            GenInstruction::Return {  } => GenInstruction::Return {  },
        }
    }

    /// Passes every write slot through `f`.
    pub fn map_write<Write2, F: Fn(Write) -> Write2>(self, f: F) -> (r: GenInstruction<Write2, Read, Label>)
        requires
            forall|x: Write| f.requires((x,)),
        ensures
            match (self, r) {
                (GenInstruction::Move { out, arg }, GenInstruction::Move { out: o2, arg: a2 }) =>
                    a2 == arg && f.ensures((out,), o2),
                (
                    GenInstruction::RustCall { rust_fn, out, arg },
                    GenInstruction::RustCall { rust_fn: f2, out: o2, arg: a2 },
                ) => f2 == rust_fn && a2 == arg && f.ensures((out,), o2),
                (GenInstruction::Jump { label }, GenInstruction::Jump { label: l2 }) => l2 == label,
                (GenInstruction::Return {  }, GenInstruction::Return {  }) => true,
                _ => false,
            },
    {
        match self {
            GenInstruction::Move { out, arg } => GenInstruction::Move { out: f(out), arg },
            GenInstruction::RustCall { rust_fn, out, arg } => GenInstruction::RustCall {
                rust_fn,
                out: f(out),
                arg,
            },
            GenInstruction::Jump { label } => GenInstruction::Jump { label },
            GenInstruction::Return {  } => GenInstruction::Return {  },
        }
    }

    /// Passes every jump label through `f`.
    pub fn map_label<Label2, F: Fn(Label) -> Label2>(self, f: F) -> (r: GenInstruction<Write, Read, Label2>)
        requires
            forall|x: Label| f.requires((x,)),
        ensures
            match (self, r) {
                (GenInstruction::Move { out, arg }, GenInstruction::Move { out: o2, arg: a2 }) =>
                    o2 == out && a2 == arg,
                (
                    GenInstruction::RustCall { rust_fn, out, arg },
                    GenInstruction::RustCall { rust_fn: f2, out: o2, arg: a2 },
                ) => f2 == rust_fn && o2 == out && a2 == arg,
                (GenInstruction::Jump { label }, GenInstruction::Jump { label: l2 }) =>
                    f.ensures((label,), l2),
                (GenInstruction::Return {  }, GenInstruction::Return {  }) => true,
                _ => false,
            },
    {
        match self {
            GenInstruction::Move { out, arg } => GenInstruction::Move { out, arg },
            GenInstruction::RustCall { rust_fn, out, arg } => GenInstruction::RustCall {
                rust_fn,
                out,
                arg,
            },
            GenInstruction::Jump { label } => GenInstruction::Jump { label: f(label) },
            GenInstruction::Return {  } => GenInstruction::Return {  },
        }
    }

    /// Replaces each read slot that `is_old` accepts by `new`.
    pub fn replace_read<F: Fn(&Read) -> bool>(self, is_old: F, new: Read) -> (r: GenInstruction<Write, Read, Label>)
        requires
            forall|x: &Read| is_old.requires((x,)),
        ensures
            match (self, r) {
                (GenInstruction::Move { out, arg }, GenInstruction::Move { out: o2, arg: a2 }) => o2 == out && exists|b: bool|
                    #[trigger] is_old.ensures((&arg,), b) && a2 == (if b {
                        new
                    } else {
                        arg
                    }),
                (
                    GenInstruction::RustCall { rust_fn, out, arg },
                    GenInstruction::RustCall { rust_fn: f2, out: o2, arg: a2 },
                ) => f2 == rust_fn && o2 == out && exists|b: bool|
                    #[trigger] is_old.ensures((&arg,), b) && a2 == (if b {
                        new
                    } else {
                        arg
                    }),
                (GenInstruction::Jump { label }, GenInstruction::Jump { label: l2 }) => l2 == label,
                (GenInstruction::Return {  }, GenInstruction::Return {  }) => true,
                _ => false,
            },
    {
        match self {
            GenInstruction::Move { out, arg } => GenInstruction::Move {
                out,
                arg: if is_old(&arg) {
                    new
                } else {
                    arg
                },
            },
            GenInstruction::RustCall { rust_fn, out, arg } => GenInstruction::RustCall {
                rust_fn,
                out,
                arg: if is_old(&arg) {
                    new
                } else {
                    arg
                },
            },
            GenInstruction::Jump { label } => GenInstruction::Jump { label },
            GenInstruction::Return {  } => GenInstruction::Return {  },
        }
    }

    /// Replaces the jump label, if `is_old` accepts it, by `new`.
    pub fn replace_jump<F: Fn(&Label) -> bool>(self, is_old: F, new: Label) -> (r: GenInstruction<Write, Read, Label>)
        requires
            forall|x: &Label| is_old.requires((x,)),
        ensures
            match (self, r) {
                (GenInstruction::Move { out, arg }, GenInstruction::Move { out: o2, arg: a2 }) => o2 == out && a2 == arg,
                (
                    GenInstruction::RustCall { rust_fn, out, arg },
                    GenInstruction::RustCall { rust_fn: f2, out: o2, arg: a2 },
                ) => f2 == rust_fn && o2 == out && a2 == arg,
                (GenInstruction::Jump { label }, GenInstruction::Jump { label: l2 }) => exists|b: bool|
                    #[trigger] is_old.ensures((&label,), b) && l2 == (if b {
                        new
                    } else {
                        label
                    }),
                (GenInstruction::Return {  }, GenInstruction::Return {  }) => true,
                _ => false,
            },
    {
        match self {
            GenInstruction::Jump { label } => if is_old(&label) {
                GenInstruction::Jump { label: new }
            } else {
                GenInstruction::Jump { label }
            },
            GenInstruction::Move { out, arg } => GenInstruction::Move { out, arg },
            GenInstruction::RustCall { rust_fn, out, arg } => GenInstruction::RustCall { rust_fn, out, arg },
            GenInstruction::Return {  } => GenInstruction::Return {  },
        }
    }
}

} // verus!
