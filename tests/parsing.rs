use kupo::ast::{BinOp, Expression, Item, Statement};
use kupo::frontend::parse_module;
use kupo::internal_ast::{ASTBinOp, ASTExpression};
use kupo::lexer::lex;
use kupo::located::Located;
use kupo::parser::{DelimitedMany, Parser};
use kupo::token::{Grouping, Token};
use kupo::tstream::TStream;

fn lit(n: u64) -> Located<ASTExpression> {
    Located { value: ASTExpression::IntegerLiteral { it: n }, start: 0, end: 1 }
}

#[test]
fn parses_a_view_and_a_def() {
    let m = parse_module(
        "
    view [@x NPC] in lonely_vampire {}

    def main() [] {
        print('Test!')
    }
    ",
    )
    .unwrap();
    assert_eq!(m.value.items.len(), 2);
    match &m.value.items[0].value {
        Item::View(v) => {
            assert_eq!(v.name.value, "lonely_vampire");
            assert_eq!(v.args.len(), 1);
            assert_eq!(v.args[0].value.name.value, "@x");
            assert_eq!(v.args[0].value.arg_type.as_ref().unwrap().value.name.value, "NPC");
            assert_eq!(v.clauses.len(), 1);
            assert!(v.clauses[0].value.items.is_empty());
        }
        _ => panic!("expected a view"),
    }
    match &m.value.items[1].value {
        Item::Def(d) => {
            assert_eq!(d.name.value, "main");
            assert!(d.args.is_empty());
            assert_eq!(d.return_type.as_ref().unwrap().len(), 0);
            assert_eq!(d.body.value.items.len(), 1);
            match &d.body.value.items[0].value {
                Statement::Call { call } => {
                    assert_eq!(call.value.name.value, "print");
                    assert!(matches!(&call.value.args[0].value, Expression::StringLiteral { it } if it == "Test!"));
                }
                _ => panic!("expected a call"),
            }
        }
        _ => panic!("expected a def"),
    }
}

#[test]
fn multiplication_binds_tighter() {
    let m = parse_module("def main() { print(1+2*3) }").unwrap();
    let body = match &m.value.items[0].value {
        Item::Def(d) => &d.body.value.items[0].value,
        _ => panic!("expected a def"),
    };
    let arg = match body {
        Statement::Call { call } => &call.value.args[0].value,
        _ => panic!("expected a call"),
    };
    match arg {
        Expression::BinOp { arg1, op: BinOp::Add, arg2 } => {
            assert!(matches!(arg1.value, Expression::IntegerLiteral { it: 1 }));
            assert!(matches!(arg2.value, Expression::BinOp { op: BinOp::Multiply, .. }));
        }
        _ => panic!("expected an addition at the top"),
    }
}

#[test]
fn unclosed_call_is_reported() {
    let errors = parse_module("def main(@x) {\n print(1+2*3\n }").unwrap_err();
    assert_eq!(errors.len(), 1);
    assert_eq!(errors[0].value.0, "right paren expected");
}

#[test]
fn unknown_item_is_reported_and_skipped() {
    let errors = parse_module("banana { x } def f() { }").unwrap_err();
    assert_eq!(errors.len(), 1);
    assert_eq!(errors[0].value.0, "unrecognized item: expected def or view");
}

#[test]
fn fn_keyword_does_not_hang() {
    let errors = parse_module("fn f() { }").unwrap_err();
    assert_eq!(errors[0].value.0, "expected def or view");
}

#[test]
fn subtraction_is_left_associative() {
    let e = lit(1)
        .add_using_precedence(ASTBinOp::Subtract, lit(2))
        .add_using_precedence(ASTBinOp::Subtract, lit(3));
    match e.value {
        ASTExpression::BinOp { arg1, op: ASTBinOp::Subtract, arg2 } => {
            assert!(matches!(arg1.value, ASTExpression::BinOp { op: ASTBinOp::Subtract, .. }));
            assert!(matches!(arg2.value, ASTExpression::IntegerLiteral { it: 3 }));
        }
        _ => panic!("expected a subtraction"),
    }
}

#[test]
fn token_stream_pops_and_peeks() {
    let (tokens, eof) = lex("def f");
    let mut ts = TStream::new(&tokens, eof);
    assert!(ts.peek_keyword("def"));
    assert!(ts.pop_keyword("view").is_none());
    assert!(ts.pop_keyword("def").is_some());
    assert!(ts.peek_identifier());
    assert_eq!(ts.pop_identifier().unwrap().value, "f");
    assert!(ts.peek_eq(&Token::EOF));
    assert_eq!(ts.pop_any().value, Token::EOF);
    assert_eq!(ts.location().start, 5);
}

#[test]
fn skip_to_next_item_stops_after_a_block() {
    let (tokens, eof) = lex("x { y } def");
    let mut p = Parser { ts: TStream::new(&tokens, eof) };
    p.skip_to_next_item();
    assert!(p.ts.peek_keyword("def"));
    let basis = DelimitedMany::braces_basis();
    assert!(matches!(basis.lhs, Some((Token::Grouping(Grouping::LBrace), _))));
}
