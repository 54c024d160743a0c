use kupo::instruction::{GenInstruction, Register};
use kupo::internal_ast::kpe;
use kupo::lexer::lex;
use kupo::located::Located;
use kupo::parser::Parser;
use kupo::simp::Simp;
use kupo::ssa::{ArgRegister, BlockId, SSAReg};
use kupo::tstream::TStream;

fn at<T>(value: T, start: usize, end: usize) -> Located<T> {
    Located { value, start, end }
}

#[test]
fn located_spans_merge() {
    let a = at(1u8, 4, 6);
    let b = at('x', 2, 5);
    let m = a.merge(b);
    assert_eq!((m.value, m.start, m.end), ((1u8, 'x'), 2, 6));
    let r = a.merge_r(b);
    assert_eq!((r.value, r.start, r.end), ('x', 2, 6));
    let l = a.merge_l(&b);
    assert_eq!((l.value, l.start, l.end), (1u8, 2, 6));
    let mapped = a.locmap(|v| v as u32 + 1);
    assert_eq!((mapped.value, mapped.start, mapped.end), (2u32, 4, 6));
    let loc = a.location();
    assert_eq!((loc.start, loc.end), (4, 6));
}

#[test]
fn instruction_mapping() {
    let mv: GenInstruction<SSAReg, ArgRegister, BlockId> =
        GenInstruction::Move { out: SSAReg { id: 1 }, arg: ArgRegister::Known(SSAReg { id: 2 }) };
    let phys = mv
        .map_read(|a| match a {
            ArgRegister::Known(r) => Register::Local(r.id),
            ArgRegister::BParam(i) => Register::Arg(i),
        })
        .map_write(|w: SSAReg| Register::Local(w.id))
        .map_label(|l: BlockId| l.id);
    assert_eq!(phys, GenInstruction::Move { out: Register::Local(1), arg: Register::Local(2) });
    assert!(!mv.is_jump());
    let j: GenInstruction<SSAReg, ArgRegister, BlockId> = GenInstruction::Jump { label: BlockId { id: 3 } };
    assert!(j.is_jump());
    assert_eq!(j.for_label(), Some(&BlockId { id: 3 }));
    assert_eq!(j.map_label(|l: BlockId| l.id * 10), GenInstruction::Jump { label: 30 });
    assert_eq!(j.replace_jump(|l| *l == BlockId { id: 3 }, BlockId { id: 4 }), GenInstruction::Jump { label: BlockId { id: 4 } });
    assert_eq!(j.replace_jump(|l| *l == BlockId { id: 9 }, BlockId { id: 4 }), j);
    let replaced = mv.replace_read(|a| *a == ArgRegister::Known(SSAReg { id: 2 }), ArgRegister::BParam(0));
    assert_eq!(replaced, GenInstruction::Move { out: SSAReg { id: 1 }, arg: ArgRegister::BParam(0) });
    let ret: GenInstruction<SSAReg, ArgRegister, BlockId> = GenInstruction::Return {};
    assert!(ret.is_jump());
}

#[test]
fn simp_collects_all_errors_in_order() {
    let ok: Simp<u8> = Simp::new(1);
    let bad1: Simp<u8> = Simp::fail(at(kpe("first"), 0, 1));
    let bad2: Simp<u8> = Simp::fail(at(kpe("second"), 2, 3));
    match Simp::concat(vec![Simp::new(1), bad1, Simp::new(2), bad2]) {
        Simp::Failed(e) => {
            assert_eq!(e.len(), 2);
            assert_eq!(e[0].value.0, "first");
            assert_eq!(e[1].value.0, "second");
        }
        Simp::InProgress(_) => panic!("expected failure"),
    }
    match Simp::concat(vec![ok, Simp::new(5)]) {
        Simp::InProgress(v) => assert_eq!(v, vec![1, 5]),
        Simp::Failed(_) => panic!("expected success"),
    }
    match Simp::tup4(Simp::new(1u8), Simp::new('a'), Simp::new(true), Simp::new(2u16)) {
        Simp::InProgress(t) => assert_eq!(t, (1, 'a', true, 2)),
        Simp::Failed(_) => panic!("expected success"),
    }
    let mut acc: Simp<u32> = Simp::new(2);
    acc.merge_mut(Simp::new(3u32), |a, b| a * b);
    assert!(matches!(acc.to_result(), Ok(6)));
    assert!(matches!(Simp::new(4u8).simpmap(|x| x + 1).to_result(), Ok(5)));
    let opt: Simp<Option<u8>> = Simp::new_with_optional(Some(3u8), |x| Simp::new(x * 2));
    assert!(matches!(opt.to_result(), Ok(Some(6))));
    let none: Simp<Option<u8>> = Simp::new_with_optional(None, |x: u8| Simp::new(x));
    assert!(matches!(none.to_result(), Ok(None)));
}

#[test]
fn give_up_places_the_error_at_the_cursor() {
    let (tokens, eof) = lex("  zap");
    let p = Parser { ts: TStream::new(&tokens, eof) };
    let g = p.give_up("nope", |e| e.0.len());
    assert_eq!((g.value, g.start, g.end), (4, 2, 2));
}
