use kupo::codegen::emit_block;
use kupo::error::LowerError;
use kupo::instruction::{GenInstruction, Instruction, Register};
use kupo::ssa::{ArgRegister, BlockId, SSAInstruction, SSAReg, Var, SSA};

fn jump(b: BlockId) -> SSAInstruction {
    GenInstruction::Jump { label: b }
}

fn ret() -> SSAInstruction {
    GenInstruction::Return {}
}

fn mov(out: SSAReg, arg: ArgRegister) -> SSAInstruction {
    GenInstruction::Move { out, arg }
}

fn is_move(i: &SSAInstruction) -> bool {
    matches!(i, GenInstruction::Move { .. })
}

fn assert_jumps_in_range(code: &[Instruction]) {
    for i in code {
        if let GenInstruction::Jump { label } = i {
            assert!(*label < code.len());
        }
    }
}

/// Entry, A and C reachable; B also jumps to C. X is written in A and in B, read in C.
fn diamond() -> (SSA, BlockId, BlockId, BlockId, Var) {
    let mut ssa = SSA::new();
    let a = ssa.create_block();
    let b = ssa.create_block();
    let c = ssa.create_block();
    let x = Var { id: 0 };
    let y = Var { id: 1 };
    ssa.write_variable(a, x);
    ssa.add_instruction(a, jump(c));
    ssa.write_variable(b, x);
    ssa.add_instruction(b, jump(c));
    let read = ssa.read_variable(c, x);
    assert_eq!(read, ArgRegister::BParam(0));
    let out = ssa.write_variable(c, y);
    ssa.add_instruction(c, mov(out, read));
    ssa.add_instruction(c, ret());
    (ssa, a, b, c, x)
}

#[test]
fn read_variable_defers_then_resolves_locally() {
    let mut ssa = SSA::new();
    let a = ssa.create_block();
    let x = Var { id: 7 };
    assert_eq!(ssa.read_variable(a, x), ArgRegister::BParam(0));
    assert_eq!(ssa.read_variable(a, x), ArgRegister::BParam(0));
    assert_eq!(ssa.read_variable(a, Var { id: 8 }), ArgRegister::BParam(1));
    let r = ssa.write_variable(a, x);
    assert_eq!(ssa.read_variable(a, x), ArgRegister::Known(r));
    assert_eq!(ssa.blocks[a.id].parameters.len(), 2);
}

#[test]
fn add_instruction_completes_on_terminator() {
    let mut ssa = SSA::new();
    let a = ssa.create_block();
    let r = ssa.create_register(None);
    ssa.add_instruction(a, mov(r, ArgRegister::Known(r)));
    assert!(!ssa.blocks[a.id].complete);
    ssa.add_instruction(a, ret());
    assert!(ssa.blocks[a.id].complete);
}

#[test]
fn pipe_in_variable_binds_and_renumbers() {
    let mut ssa = SSA::new();
    let a = ssa.create_block();
    let x = Var { id: 0 };
    let y = Var { id: 1 };
    let rx = ssa.read_variable(a, x);
    let ry = ssa.read_variable(a, y);
    let o = ssa.create_register(None);
    ssa.add_instruction(a, mov(o, rx));
    ssa.add_instruction(a, mov(o, ry));
    let src = SSAReg { id: 40 };
    ssa.blocks[a.id].pipe_in_variable(x, src);
    let blk = &ssa.blocks[a.id];
    assert_eq!(blk.parameters, vec![y]);
    assert!(matches!(blk.instructions[0], GenInstruction::Move { arg: ArgRegister::Known(r), .. } if r == src));
    assert!(matches!(blk.instructions[1], GenInstruction::Move { arg: ArgRegister::BParam(0), .. }));
    assert_eq!(blk.binding(x), Some(src));
}

#[test]
fn analysis_twice_is_identical() {
    let (mut ssa, _, _, _, _) = diamond();
    ssa.route_entry_block().unwrap();
    let c1 = ssa.analyze_cfg().unwrap();
    let c2 = ssa.analyze_cfg().unwrap();
    assert_eq!(c1.reachable_blocks, c2.reachable_blocks);
    assert_eq!(c1.block_jumps_to, c2.block_jumps_to);
    assert_eq!(c1.approximate_toposort, c2.approximate_toposort);
    assert_eq!(
        c1.approximate_toposort,
        vec![BlockId { id: 0 }, BlockId { id: 1 }, BlockId { id: 3 }]
    );
    assert_eq!(c1.reachable_blocks, vec![true, true, false, true]);
}

#[test]
fn incomplete_block_is_refused() {
    let mut ssa = SSA::new();
    let a = ssa.create_block();
    ssa.write_variable(a, Var { id: 0 });
    assert!(matches!(ssa.analyze_cfg(), Err(LowerError::IncompleteBlock(b)) if b.id == 0));
    ssa.route_entry_block().unwrap();
    assert!(matches!(ssa.analyze_cfg(), Err(LowerError::IncompleteBlock(b)) if b == a));
    assert!(matches!(SSA::new().analyze_cfg(), Err(LowerError::NoUserBlock)));
}

#[test]
fn diamond_gets_one_join_block_per_jumper() {
    let (mut ssa, a, b, c, x) = diamond();
    ssa.route_entry_block().unwrap();
    let cfg = ssa.analyze_cfg().unwrap();
    ssa.generate_final_block(&cfg);
    let cfg = ssa.analyze_cfg().unwrap();
    let needs = ssa.block_needs(&cfg);
    assert_eq!(needs.block_needs[c.id], vec![x]);
    let before = ssa.blocks.len();
    ssa.generate_phantoms(&cfg, &needs).unwrap();
    assert_eq!(ssa.blocks.len(), before + 2);
    assert!(ssa.blocks[c.id].parameters.is_empty());
    let shared = ssa.blocks[c.id].binding(x).unwrap();
    let pa = BlockId { id: before };
    let pb = BlockId { id: before + 1 };
    for (jumper, phantom) in [(a, pa), (b, pb)] {
        let p = &ssa.blocks[phantom.id];
        assert_eq!(p.instructions.len(), 2);
        assert!(matches!(p.instructions[0], GenInstruction::Move { out, arg: ArgRegister::BParam(0) } if out == shared));
        assert!(matches!(p.instructions[1], GenInstruction::Jump { label } if label == c));
        let last = *ssa.blocks[jumper.id].instructions.last().unwrap();
        assert!(matches!(last, GenInstruction::Jump { label } if label == phantom));
    }
}

#[test]
fn diamond_lowers_through_its_join_block() {
    let (ssa, _, _, _, _) = diamond();
    let code = ssa.lower(&vec![]).unwrap();
    // A writes X into register 0, C reads it into register 2; the join register is 3.
    assert_eq!(
        code,
        vec![
            GenInstruction::Move { out: Register::Local(3), arg: Register::Local(0) },
            GenInstruction::Move { out: Register::Local(2), arg: Register::Local(3) },
            GenInstruction::Return {},
        ]
    );
    assert_jumps_in_range(&code);
}

#[test]
fn straight_line_needs_no_join_blocks() {
    let mut ssa = SSA::new();
    let a = ssa.create_block();
    let x = Var { id: 0 };
    ssa.write_variable(a, x);
    ssa.add_instruction(a, ret());
    ssa.route_entry_block().unwrap();
    let cfg = ssa.analyze_cfg().unwrap();
    ssa.generate_final_block(&cfg);
    let cfg = ssa.analyze_cfg().unwrap();
    let needs = ssa.block_needs(&cfg);
    assert!(needs.block_needs[a.id].is_empty());
    let before = ssa.blocks.len();
    ssa.generate_phantoms(&cfg, &needs).unwrap();
    assert_eq!(ssa.blocks.len(), before);
}

#[test]
fn straight_line_lowers_to_a_single_return() {
    let mut ssa = SSA::new();
    let a = ssa.create_block();
    ssa.write_variable(a, Var { id: 0 });
    ssa.add_instruction(a, ret());
    assert_eq!(ssa.lower(&vec![]).unwrap(), vec![GenInstruction::Return {}]);
}

#[test]
fn entry_needs_come_from_arguments() {
    let mut ssa = SSA::new();
    let a = ssa.create_block();
    let x = Var { id: 5 };
    let r = ssa.read_variable(a, x);
    let out = ssa.write_variable(a, Var { id: 6 });
    ssa.add_instruction(a, mov(out, r));
    ssa.add_instruction(a, ret());
    let code = ssa.lower(&vec![Var { id: 9 }, x]).unwrap();
    assert_eq!(
        code,
        vec![
            GenInstruction::Move { out: Register::Local(0), arg: Register::Arg(1) },
            GenInstruction::Return {},
        ]
    );
}

#[test]
fn missing_argument_is_reported() {
    let mut ssa = SSA::new();
    let a = ssa.create_block();
    let x = Var { id: 5 };
    let r = ssa.read_variable(a, x);
    let out = ssa.write_variable(a, Var { id: 6 });
    ssa.add_instruction(a, mov(out, r));
    ssa.add_instruction(a, ret());
    assert!(matches!(ssa.lower(&vec![]), Err(LowerError::MissingArgument(v)) if v == x));
}

#[test]
fn jump_to_next_block_is_elided() {
    let b1 = BlockId { id: 1 };
    let b2 = BlockId { id: 2 };
    let r = SSAReg { id: 0 };
    let body = vec![mov(r, ArgRegister::Known(r)), jump(b1)];
    let mut out = vec![];
    emit_block(&body, Some(b1), &mut out);
    assert_eq!(out.len(), 1);
    assert!(is_move(&out[0]));
    let body2 = vec![mov(r, ArgRegister::Known(r)), jump(b2)];
    let mut out2 = vec![];
    emit_block(&body2, Some(b1), &mut out2);
    assert_eq!(out2.len(), 2);
    assert!(matches!(out2[1], GenInstruction::Jump { label } if label == b2));
    let mut out3 = vec![];
    emit_block(&body, None, &mut out3);
    assert_eq!(out3.len(), 2);
}

#[test]
fn kept_jumps_point_inside_the_code() {
    // A jumps over B to C; B is reachable only from nowhere, C loops back to B.
    let mut ssa = SSA::new();
    let a = ssa.create_block();
    let b = ssa.create_block();
    let c = ssa.create_block();
    let r = ssa.create_register(None);
    ssa.add_instruction(a, jump(c));
    ssa.add_instruction(c, mov(r, ArgRegister::Known(r)));
    ssa.add_instruction(c, jump(b));
    ssa.add_instruction(b, mov(r, ArgRegister::Known(r)));
    ssa.add_instruction(b, ret());
    let code = ssa.lower(&vec![]).unwrap();
    assert_jumps_in_range(&code);
    assert_eq!(code.len(), 3);
}

#[test]
fn loop_back_to_first_block_joins_the_entry_value() {
    // A reads X and loops through B, which writes X; X first comes from the argument.
    let mut ssa = SSA::new();
    let a = ssa.create_block();
    let b = ssa.create_block();
    let x = Var { id: 0 };
    let y = Var { id: 1 };
    let read = ssa.read_variable(a, x);
    let out = ssa.write_variable(a, y);
    ssa.add_instruction(a, mov(out, read));
    ssa.add_instruction(a, jump(b));
    ssa.write_variable(b, x);
    ssa.add_instruction(b, jump(a));
    let code = ssa.lower(&vec![x]).unwrap();
    assert_eq!(
        code,
        vec![
            GenInstruction::Move { out: Register::Local(2), arg: Register::Arg(0) },
            GenInstruction::Move { out: Register::Local(0), arg: Register::Local(2) },
            GenInstruction::Move { out: Register::Local(2), arg: Register::Local(1) },
            GenInstruction::Jump { label: 1 },
        ]
    );
}

#[test]
fn pipe_in_replaces_a_local_binding() {
    let mut ssa = SSA::new();
    let a = ssa.create_block();
    let x = Var { id: 0 };
    ssa.write_variable(a, x);
    let incoming = SSAReg { id: 99 };
    ssa.blocks[a.id].pipe_in_variable(x, incoming);
    assert_eq!(ssa.blocks[a.id].binding(x), Some(incoming));
    let y = Var { id: 1 };
    ssa.blocks[a.id].pipe_in_variable(y, incoming);
    assert_eq!(ssa.blocks[a.id].binding(y), Some(incoming));
}

#[test]
fn code_after_a_terminator_is_refused() {
    let mut ssa = SSA::new();
    let a = ssa.create_block();
    ssa.add_instruction(a, ret());
    ssa.blocks[a.id].instructions.push(ret());
    ssa.route_entry_block().unwrap();
    assert!(matches!(ssa.analyze_cfg(), Err(LowerError::IncompleteBlock(b)) if b == a));
}

#[test]
fn unmerged_join_is_a_conflict() {
    // A reads X and is jumped to by the entry block and by B; no join blocks were made.
    let mut ssa = SSA::new();
    let a = ssa.create_block();
    let b = ssa.create_block();
    let x = Var { id: 0 };
    let read = ssa.read_variable(a, x);
    let out = ssa.write_variable(a, Var { id: 1 });
    ssa.add_instruction(a, mov(out, read));
    ssa.add_instruction(a, ret());
    ssa.add_instruction(b, jump(a));
    ssa.route_entry_block().unwrap();
    let cfg = ssa.analyze_cfg().unwrap();
    let needs = ssa.block_needs(&cfg);
    assert!(matches!(
        ssa.eliminate_block_params(&cfg, &needs),
        Err(LowerError::ConflictingSources(t, v)) if t == a && v == x
    ));
}

#[test]
fn binder_ends_an_open_entry_block() {
    let mut ssa = SSA::new();
    let a = ssa.create_block();
    ssa.add_instruction(a, ret());
    let x = Var { id: 3 };
    ssa.blocks[0].parameters.clear();
    let needs = kupo::needs::BlockNeeds { block_needs: vec![vec![x], vec![]] };
    ssa.prepare_initial_block(&needs, &vec![x]).unwrap();
    assert!(ssa.blocks[0].complete);
    assert!(matches!(ssa.blocks[0].instructions[0], GenInstruction::Jump { label } if label == a));
    assert!(ssa.blocks[0].binding(x).is_some());
}
