use vstd::prelude::*;

use crate::ast::{
    Arg, AssignTarget, BinOp, Block, Call, Def, Expression, Item, Module, QueryExpression, QueryGoal, Statement, Type,
    UOp,
};
use crate::internal_ast::{
    ASTArg, ASTArgs, ASTAssignTarget, ASTBinOp, ASTBlock, ASTCall, ASTCallArgs, ASTDef, ASTExpression, ASTItem,
    ASTModule, ASTQueryExpression, ASTQueryGoal, ASTQueryGoalSource, ASTStatement, ASTType, ASTTypes, ASTUOp, ASTView,
    KupoParseError,
};
use crate::simp::Errors;
use crate::ast::View as ViewItem;
use crate::located::Located;
use crate::simp::{simp_errors, Simp};

verus! {

broadcast use vstd::std_specs::vec::axiom_vec_decreases_to_view, vstd::seq::axiom_seq_index_decreases;

pub open spec fn located_error<T>(at: Located<T>, e: KupoParseError) -> Located<KupoParseError> {
    Located { value: e, start: at.start, end: at.end }
}

/// The parse errors inside an expression, left to right.
pub open spec fn expr_errors(e: Located<ASTExpression>) -> Seq<Located<KupoParseError>>
    decreases e, 0nat,
{
    match e.value {
        ASTExpression::StringLiteral { .. } => Seq::empty(),
        ASTExpression::IntegerLiteral { .. } => Seq::empty(),
        ASTExpression::Call { call } => call_errors(call),
        ASTExpression::UOp { arg, .. } => expr_errors(*arg),
        ASTExpression::BinOp { arg1, arg2, .. } => expr_errors(*arg1) + expr_errors(*arg2),
        ASTExpression::Invalid(k) => seq![located_error(e, k)],
    }
}

pub open spec fn call_errors(c: Located<ASTCall>) -> Seq<Located<KupoParseError>>
    decreases c, 0nat,
{
    match c.value {
        ASTCall::Call { args, .. } => match args.value {
            ASTCallArgs::Args { args: list } => exprs_errors(list@, list@.len()),
            ASTCallArgs::Invalid(k) => seq![located_error(args, k)],
        },
        ASTCall::Invalid(k) => seq![located_error(c, k)],
    }
}

/// The parse errors of the first `n` expressions.
pub open spec fn exprs_errors(s: Seq<Located<ASTExpression>>, n: nat) -> Seq<Located<KupoParseError>>
    decreases s, n,
{
    if n == 0 || n > s.len() {
        Seq::empty()
    } else {
        exprs_errors(s, (n - 1) as nat) + expr_errors(s[n - 1])
    }
}

fn simplify_uop(it: ASTUOp) -> (r: UOp) {
    match it {
        ASTUOp::Negate => UOp::Negate,
        ASTUOp::Plus => UOp::Plus,
    }
}

fn simplify_binop(it: ASTBinOp) -> (r: BinOp) {
    match it {
        ASTBinOp::Add => BinOp::Add,
        ASTBinOp::Subtract => BinOp::Subtract,
        ASTBinOp::Multiply => BinOp::Multiply,
        ASTBinOp::Divide => BinOp::Divide,
    }
}

/// A failed simplification carries at least one error.
pub open spec fn honest<T>(s: Simp<T>) -> bool {
    s is Failed ==> simp_errors(s).len() > 0
}

fn fail_at<T>(start: usize, end: usize, e: KupoParseError) -> (r: Simp<T>)
    ensures
        r is Failed,
        simp_errors(r) == seq![Located { value: e, start, end }],
{
    Simp::fail(Located { value: e, start, end })
}

/// The expression without parse-error nodes, or the errors inside it.
pub fn simplify_expression(it: Located<ASTExpression>) -> (r: Simp<Located<Expression>>)
    ensures
        simp_errors(r) == expr_errors(it),
        r is InProgress <==> expr_errors(it).len() == 0,
    decreases it, 0nat,
{
    let ghost orig = it;
    let (start, end) = (it.start, it.end);
    match it.value {
        ASTExpression::StringLiteral { it: s } => Simp::InProgress(
            Located { value: Expression::StringLiteral { it: s }, start, end },
        ),
        ASTExpression::IntegerLiteral { it: n } => Simp::InProgress(
            Located { value: Expression::IntegerLiteral { it: n }, start, end },
        ),
        ASTExpression::Call { call } => match simplify_call(call) {
            Simp::InProgress(c) => Simp::InProgress(Located { value: Expression::Call { call: c }, start, end }),
            Simp::Failed(e) => Simp::Failed(e),
        },
        ASTExpression::UOp { op, arg } => match simplify_expression(*arg) {
            Simp::InProgress(a) => Simp::InProgress(
                Located { value: Expression::UOp { op: simplify_uop(op), arg: Box::new(a) }, start, end },
            ),
            Simp::Failed(e) => Simp::Failed(e),
        },
        ASTExpression::BinOp { arg1, op, arg2 } => {
            let s1 = simplify_expression(*arg1);
            let s2 = simplify_expression(*arg2);
            match Simp::tup2(s1, s2) {
                Simp::InProgress((a1, a2)) => Simp::InProgress(
                    Located {
                        value: Expression::BinOp { arg1: Box::new(a1), op: simplify_binop(op), arg2: Box::new(a2) },
                        start,
                        end,
                    },
                ),
                Simp::Failed(e) => Simp::Failed(e),
            }
        },
        ASTExpression::Invalid(k) => fail_at(start, end, k),
    }
}

/// Simplifies each expression; the errors of all of them, in order, if any fails.
fn simplify_expressions(list: Vec<Located<ASTExpression>>, Ghost(parent): Ghost<Located<ASTCall>>) -> (r: Simp<Vec<Located<Expression>>>)
    requires
        forall|i: int| 0 <= i < list@.len() ==> decreases_to!(parent => #[trigger] list@[i]),
    ensures
        simp_errors(r) == exprs_errors(list@, list@.len()),
        r is InProgress <==> exprs_errors(list@, list@.len()).len() == 0,
    decreases parent, 0nat,
{
    let ghost all = list@;
    let mut list = list;
    let total = list.len();
    let mut result: Simp<Vec<Located<Expression>>> = Simp::InProgress(Vec::new());
    let mut k: usize = 0;
    while list.len() > 0
        invariant
            k + list@.len() == all.len(),
            all.len() == total,
            list@ == all.subrange(k as int, all.len() as int),
            forall|i: int| 0 <= i < all.len() ==> decreases_to!(parent => #[trigger] all[i]),
            simp_errors(result) == exprs_errors(all, k as nat),
            result is InProgress <==> exprs_errors(all, k as nat).len() == 0,
        decreases list@.len(),
    {
        let x = list.remove(0);
        assert(x == all[k as int]);
        let sx = simplify_expression(x);
        result = match (result, sx) {
            (Simp::InProgress(mut v), Simp::InProgress(t)) => {
                v.push(t);
                Simp::InProgress(v)
            },
            (Simp::Failed(mut e), Simp::Failed(e2)) => {
                let mut e2 = e2;
                e.append(&mut e2);
                Simp::Failed(e)
            },
            (Simp::Failed(e), Simp::InProgress(_)) => {
                assert(e@ + Seq::<Located<KupoParseError>>::empty() =~= e@);
                Simp::Failed(e)
            },
            (Simp::InProgress(_), Simp::Failed(e)) => {
                assert(Seq::<Located<KupoParseError>>::empty() + e@ =~= e@);
                Simp::Failed(e)
            },
        };
        proof {
            assert(list@ =~= all.subrange(k + 1, all.len() as int));
        }
        k = k + 1;
    }
    result
}

/// The call without parse-error nodes, or the errors inside it.
pub fn simplify_call(it: Located<ASTCall>) -> (r: Simp<Located<Call>>)
    ensures
        simp_errors(r) == call_errors(it),
        r is InProgress <==> call_errors(it).len() == 0,
    decreases it, 1nat,
{
    let ghost orig = it;
    let (start, end) = (it.start, it.end);
    match it.value {
        ASTCall::Call { name, args } => {
            let (a_start, a_end) = (args.start, args.end);
            match args.value {
                ASTCallArgs::Args { args: list } => {
                    proof {
                        assert forall|i: int| 0 <= i < list@.len() implies decreases_to!(orig => #[trigger] list@[i]) by {
                            assert(decreases_to!(list => list@));
                            assert(decreases_to!(list@ => list@[i]));
                        }
                    }
                    match simplify_expressions(list, Ghost(orig)) {
                        Simp::InProgress(v) => Simp::InProgress(Located { value: Call { name, args: v }, start, end }),
                        Simp::Failed(e) => Simp::Failed(e),
                    }
                },
                ASTCallArgs::Invalid(k) => fail_at(a_start, a_end, k),
            }
        },
        ASTCall::Invalid(k) => fail_at(start, end, k),
    }
}

/// The errors of the first `n` of `s`, in order, where `errs` gives each one's.
pub open spec fn list_errors<X>(s: Seq<X>, n: nat, errs: spec_fn(X) -> Seq<Located<KupoParseError>>) -> Seq<
    Located<KupoParseError>,
>
    decreases n,
{
    if n == 0 || n > s.len() {
        Seq::empty()
    } else {
        list_errors(s, (n - 1) as nat, errs) + errs(s[n - 1])
    }
}

pub open spec fn target_errors(t: Located<ASTAssignTarget>) -> Seq<Located<KupoParseError>> {
    match t.value {
        ASTAssignTarget::Target { args } => exprs_errors(args@, args@.len()),
        ASTAssignTarget::Invalid(k) => seq![located_error(t, k)],
    }
}

pub open spec fn goal_errors(g: Located<ASTQueryGoal>) -> Seq<Located<KupoParseError>> {
    match g.value {
        ASTQueryGoal::Goal { args, source } => target_errors(args) + match source.value {
            ASTQueryGoalSource::In { .. } => Seq::empty(),
            ASTQueryGoalSource::Assign { expression } => expr_errors(expression),
            ASTQueryGoalSource::Invalid(k) => seq![located_error(source, k)],
        },
    }
}

pub open spec fn qexpr_errors(q: Located<ASTQueryExpression>) -> Seq<Located<KupoParseError>> {
    match q.value {
        ASTQueryExpression::QExpression { items } => list_errors(
            items@,
            items@.len(),
            |g: Located<ASTQueryGoal>| goal_errors(g),
        ),
        ASTQueryExpression::Invalid(k) => seq![located_error(q, k)],
    }
}

pub open spec fn block_errors(b: Located<ASTBlock>) -> Seq<Located<KupoParseError>>
    decreases b, 1nat,
{
    match b.value {
        ASTBlock::Block { items } => stmts_errors(items@, items@.len()),
        ASTBlock::Invalid(k) => seq![located_error(b, k)],
    }
}

pub open spec fn stmts_errors(s: Seq<Located<ASTStatement>>, n: nat) -> Seq<Located<KupoParseError>>
    decreases s, n,
{
    if n == 0 || n > s.len() {
        Seq::empty()
    } else {
        stmts_errors(s, (n - 1) as nat) + stmt_errors(s[n - 1])
    }
}

pub open spec fn stmt_errors(st: Located<ASTStatement>) -> Seq<Located<KupoParseError>>
    decreases st, 0nat,
{
    match st.value {
        ASTStatement::For { arg, body } => qexpr_errors(arg) + block_errors(body),
        ASTStatement::If { arg, body, else_ } => qexpr_errors(arg) + block_errors(body) + match else_ {
            Some(e) => block_errors(e),
            None => Seq::empty(),
        },
        ASTStatement::Return { arg } => expr_errors(arg),
        ASTStatement::Call { call } => call_errors(call),
        ASTStatement::Assign { variable, arg, .. } => target_errors(variable) + expr_errors(arg),
        ASTStatement::Invalid(k) => seq![located_error(st, k)],
    }
}

pub open spec fn type_errors(t: Located<ASTType>) -> Seq<Located<KupoParseError>> {
    match t.value {
        ASTType::Type { .. } => Seq::empty(),
        ASTType::Invalid(k) => seq![located_error(t, k)],
    }
}

pub open spec fn types_errors(t: Located<ASTTypes>) -> Seq<Located<KupoParseError>> {
    match t.value {
        ASTTypes::Types { types } => list_errors(types@, types@.len(), |x: Located<ASTType>| type_errors(x)),
        ASTTypes::Invalid(k) => seq![located_error(t, k)],
    }
}

pub open spec fn arg_errors(a: Located<ASTArg>) -> Seq<Located<KupoParseError>> {
    match a.value {
        ASTArg::Arg { arg_type, .. } => match arg_type {
            Some(t) => type_errors(t),
            None => Seq::empty(),
        },
        ASTArg::Invalid(k) => seq![located_error(a, k)],
    }
}

pub open spec fn args_errors(a: Located<ASTArgs>) -> Seq<Located<KupoParseError>> {
    match a.value {
        ASTArgs::Args { args } => list_errors(args@, args@.len(), |x: Located<ASTArg>| arg_errors(x)),
        ASTArgs::Invalid(k) => seq![located_error(a, k)],
    }
}

pub open spec fn def_errors(d: Located<ASTDef>) -> Seq<Located<KupoParseError>> {
    match d.value {
        ASTDef::Def { args, return_type, body, .. } => args_errors(args) + match return_type {
            Some(t) => types_errors(t),
            None => Seq::empty(),
        } + block_errors(body),
        ASTDef::Invalid(k) => seq![located_error(d, k)],
    }
}

pub open spec fn view_errors(v: Located<ASTView>) -> Seq<Located<KupoParseError>> {
    match v.value {
        ASTView::View { args, clauses, .. } => args_errors(args) + list_errors(
            clauses@,
            clauses@.len(),
            |q: Located<ASTQueryExpression>| qexpr_errors(q),
        ),
        ASTView::Invalid(k) => seq![located_error(v, k)],
    }
}

pub open spec fn item_errors(i: Located<ASTItem>) -> Seq<Located<KupoParseError>> {
    match i.value {
        ASTItem::Def(d) => def_errors(Located { value: d, start: i.start, end: i.end }),
        ASTItem::View(v) => view_errors(Located { value: v, start: i.start, end: i.end }),
        ASTItem::Invalid(k) => seq![located_error(i, k)],
    }
}

/// The parse errors anywhere in a module, in source order.
pub open spec fn module_errors(m: Located<ASTModule>) -> Seq<Located<KupoParseError>> {
    match m.value {
        ASTModule::Module { items } => list_errors(items@, items@.len(), |x: Located<ASTItem>| item_errors(x)),
        ASTModule::Invalid(k) => seq![located_error(m, k)],
    }
}

/// Combines two simplifications as `Simp::merge` does, pairing the values.
fn both<A, B>(a: Simp<A>, b: Simp<B>) -> (r: Simp<(A, B)>)
    requires
        honest(a),
        honest(b),
    ensures
        honest(r),
        r is InProgress <==> a is InProgress && b is InProgress,
        simp_errors(r) == simp_errors(a) + simp_errors(b),
        a matches Simp::InProgress(x) ==> b matches Simp::InProgress(y) ==> r == Simp::InProgress((x, y)),
{
    Simp::tup2(a, b)
}

/// Simplifies each item with `f`, whose errors `errs` describes; all their errors in
/// order if any fails.
fn simplify_all<X, Y, F: Fn(X) -> Simp<Y>>(
    list: Vec<X>,
    f: F,
    Ghost(errs): Ghost<spec_fn(X) -> Seq<Located<KupoParseError>>>,
) -> (r: Simp<Vec<Y>>)
    requires
        forall|x: X| f.requires((x,)),
        forall|x: X, s: Simp<Y>| f.ensures((x,), s) ==> simp_errors(s) == errs(x) && (s is InProgress <==> errs(x).len() == 0),
    ensures
        simp_errors(r) == list_errors(list@, list@.len(), errs),
        r is InProgress <==> list_errors(list@, list@.len(), errs).len() == 0,
        r matches Simp::InProgress(v) ==> v@.len() == list@.len(),
{
    let ghost all = list@;
    let mut list = list;
    let total = list.len();
    let mut result: Simp<Vec<Y>> = Simp::InProgress(Vec::new());
    let mut k: usize = 0;
    while list.len() > 0
        invariant
            k + list@.len() == all.len(),
            all.len() == total,
            list@ == all.subrange(k as int, all.len() as int),
            forall|x: X| f.requires((x,)),
            forall|x: X, s: Simp<Y>| f.ensures((x,), s) ==> simp_errors(s) == errs(x) && (s is InProgress <==> errs(x).len() == 0),
            simp_errors(result) == list_errors(all, k as nat, errs),
            result is InProgress <==> list_errors(all, k as nat, errs).len() == 0,
            result matches Simp::InProgress(v) ==> v@.len() == k,
        decreases list@.len(),
    {
        let x = list.remove(0);
        assert(x == all[k as int]);
        let sx = f(x);
        result = match (result, sx) {
            (Simp::InProgress(mut v), Simp::InProgress(t)) => {
                v.push(t);
                Simp::InProgress(v)
            },
            (Simp::Failed(mut e), Simp::Failed(e2)) => {
                let mut e2 = e2;
                e.append(&mut e2);
                Simp::Failed(e)
            },
            (Simp::Failed(e), Simp::InProgress(_)) => {
                assert(e@ + Seq::<Located<KupoParseError>>::empty() =~= e@);
                Simp::Failed(e)
            },
            (Simp::InProgress(_), Simp::Failed(e)) => {
                assert(Seq::<Located<KupoParseError>>::empty() + e@ =~= e@);
                Simp::Failed(e)
            },
        };
        proof {
            assert(list@ =~= all.subrange(k + 1, all.len() as int));
        }
        k = k + 1;
    }
    result
}

fn simplify_assign_target(it: Located<ASTAssignTarget>) -> (r: Simp<Located<AssignTarget>>)
    ensures
        simp_errors(r) == target_errors(it),
        r is InProgress <==> target_errors(it).len() == 0,
{
    let ghost orig = it;
    let (start, end) = (it.start, it.end);
    match it.value {
        ASTAssignTarget::Target { args } => {
            proof {
                assert forall|i: int| 0 <= i < args@.len() implies decreases_to!(args => #[trigger] args@[i]) by {
                    assert(decreases_to!(args => args@));
                    assert(decreases_to!(args@ => args@[i]));
                }
            }
            match simplify_target_expressions(args) {
                Simp::InProgress(v) => Simp::InProgress(Located { value: AssignTarget { args: v }, start, end }),
                Simp::Failed(e) => Simp::Failed(e),
            }
        },
        ASTAssignTarget::Invalid(k) => fail_at(start, end, k),
    }
}

fn simplify_target_expressions(list: Vec<Located<ASTExpression>>) -> (r: Simp<Vec<Located<Expression>>>)
    ensures
        simp_errors(r) == exprs_errors(list@, list@.len()),
        r is InProgress <==> exprs_errors(list@, list@.len()).len() == 0,
{
    let ghost all = list@;
    let mut list = list;
    let total = list.len();
    let mut result: Simp<Vec<Located<Expression>>> = Simp::InProgress(Vec::new());
    let mut k: usize = 0;
    while list.len() > 0
        invariant
            k + list@.len() == all.len(),
            all.len() == total,
            list@ == all.subrange(k as int, all.len() as int),
            simp_errors(result) == exprs_errors(all, k as nat),
            result is InProgress <==> exprs_errors(all, k as nat).len() == 0,
        decreases list@.len(),
    {
        let x = list.remove(0);
        assert(x == all[k as int]);
        let sx = simplify_expression(x);
        result = match (result, sx) {
            (Simp::InProgress(mut v), Simp::InProgress(t)) => {
                v.push(t);
                Simp::InProgress(v)
            },
            (Simp::Failed(mut e), Simp::Failed(e2)) => {
                let mut e2 = e2;
                e.append(&mut e2);
                Simp::Failed(e)
            },
            (Simp::Failed(e), Simp::InProgress(_)) => {
                assert(e@ + Seq::<Located<KupoParseError>>::empty() =~= e@);
                Simp::Failed(e)
            },
            (Simp::InProgress(_), Simp::Failed(e)) => {
                assert(Seq::<Located<KupoParseError>>::empty() + e@ =~= e@);
                Simp::Failed(e)
            },
        };
        proof {
            assert(list@ =~= all.subrange(k + 1, all.len() as int));
        }
        k = k + 1;
    }
    result
}

fn simplify_query_goal(it: Located<ASTQueryGoal>) -> (r: Simp<Located<QueryGoal>>)
    ensures
        simp_errors(r) == goal_errors(it),
        r is InProgress <==> goal_errors(it).len() == 0,
{
    let (start, end) = (it.start, it.end);
    match it.value {
        ASTQueryGoal::Goal { args, source } => {
            let (s_start, s_end) = (source.start, source.end);
            match source.value {
                ASTQueryGoalSource::In { from } => {
                    let t = simplify_assign_target(args);
                    proof {
                        assert(simp_errors(t) + Seq::<Located<KupoParseError>>::empty() =~= simp_errors(t));
                    }
                    match t {
                        Simp::InProgress(a) => Simp::InProgress(Located { value: QueryGoal::In { args: a, from }, start, end }),
                        Simp::Failed(e) => Simp::Failed(e),
                    }
                },
                ASTQueryGoalSource::Assign { expression } => {
                    match both(simplify_assign_target(args), simplify_expression(expression)) {
                        Simp::InProgress((a, x)) => Simp::InProgress(
                            Located { value: QueryGoal::Assign { args: a, expression: x }, start, end },
                        ),
                        Simp::Failed(e) => Simp::Failed(e),
                    }
                },
                ASTQueryGoalSource::Invalid(k) => {
                    let t = simplify_assign_target(args);
                    let f: Simp<()> = fail_at(s_start, s_end, k);
                    match both(t, f) {
                        Simp::InProgress(_) => Simp::Failed(Vec::new()),
                        Simp::Failed(e) => Simp::Failed(e),
                    }
                },
            }
        },
    }
}

fn simplify_query_expression(it: Located<ASTQueryExpression>) -> (r: Simp<Located<QueryExpression>>)
    ensures
        simp_errors(r) == qexpr_errors(it),
        r is InProgress <==> qexpr_errors(it).len() == 0,
{
    let (start, end) = (it.start, it.end);
    match it.value {
        ASTQueryExpression::QExpression { items } => {
            let ghost errs = |g: Located<ASTQueryGoal>| goal_errors(g);
            let each = |g: Located<ASTQueryGoal>| -> (s: Simp<Located<QueryGoal>>)
                ensures
                    simp_errors(s) == goal_errors(g),
                    s is InProgress <==> goal_errors(g).len() == 0,
                { simplify_query_goal(g) };
            let s = simplify_all(items, each, Ghost(errs));
            match s {
                Simp::InProgress(v) => Simp::InProgress(Located { value: QueryExpression { items: v }, start, end }),
                Simp::Failed(e) => Simp::Failed(e),
            }
        },
        ASTQueryExpression::Invalid(k) => fail_at(start, end, k),
    }
}

fn simplify_block(it: Located<ASTBlock>) -> (r: Simp<Located<Block>>)
    ensures
        simp_errors(r) == block_errors(it),
        r is InProgress <==> block_errors(it).len() == 0,
    decreases it, 1nat,
{
    let ghost orig = it;
    let (start, end) = (it.start, it.end);
    match it.value {
        ASTBlock::Block { items } => {
            proof {
                assert forall|i: int| 0 <= i < items@.len() implies decreases_to!(orig => #[trigger] items@[i]) by {
                    assert(decreases_to!(items => items@));
                    assert(decreases_to!(items@ => items@[i]));
                }
            }
            match simplify_statements(items, Ghost(orig)) {
                Simp::InProgress(v) => Simp::InProgress(Located { value: Block { items: v }, start, end }),
                Simp::Failed(e) => Simp::Failed(e),
            }
        },
        ASTBlock::Invalid(k) => fail_at(start, end, k),
    }
}

fn simplify_statements(list: Vec<Located<ASTStatement>>, Ghost(parent): Ghost<Located<ASTBlock>>) -> (r: Simp<Vec<Located<Statement>>>)
    requires
        forall|i: int| 0 <= i < list@.len() ==> decreases_to!(parent => #[trigger] list@[i]),
    ensures
        simp_errors(r) == stmts_errors(list@, list@.len()),
        r is InProgress <==> stmts_errors(list@, list@.len()).len() == 0,
    decreases parent, 0nat,
{
    let ghost all = list@;
    let mut list = list;
    let total = list.len();
    let mut result: Simp<Vec<Located<Statement>>> = Simp::InProgress(Vec::new());
    let mut k: usize = 0;
    while list.len() > 0
        invariant
            k + list@.len() == all.len(),
            all.len() == total,
            list@ == all.subrange(k as int, all.len() as int),
            forall|i: int| 0 <= i < all.len() ==> decreases_to!(parent => #[trigger] all[i]),
            simp_errors(result) == stmts_errors(all, k as nat),
            result is InProgress <==> stmts_errors(all, k as nat).len() == 0,
        decreases list@.len(),
    {
        let x = list.remove(0);
        assert(x == all[k as int]);
        let sx = simplify_statement(x);
        result = match (result, sx) {
            (Simp::InProgress(mut v), Simp::InProgress(t)) => {
                v.push(t);
                Simp::InProgress(v)
            },
            (Simp::Failed(mut e), Simp::Failed(e2)) => {
                let mut e2 = e2;
                e.append(&mut e2);
                Simp::Failed(e)
            },
            (Simp::Failed(e), Simp::InProgress(_)) => {
                assert(e@ + Seq::<Located<KupoParseError>>::empty() =~= e@);
                Simp::Failed(e)
            },
            (Simp::InProgress(_), Simp::Failed(e)) => {
                assert(Seq::<Located<KupoParseError>>::empty() + e@ =~= e@);
                Simp::Failed(e)
            },
        };
        proof {
            assert(list@ =~= all.subrange(k + 1, all.len() as int));
        }
        k = k + 1;
    }
    result
}

fn simplify_statement(it: Located<ASTStatement>) -> (r: Simp<Located<Statement>>)
    ensures
        simp_errors(r) == stmt_errors(it),
        r is InProgress <==> stmt_errors(it).len() == 0,
    decreases it, 0nat,
{
    let (start, end) = (it.start, it.end);
    match it.value {
        ASTStatement::For { arg, body } => match both(simplify_query_expression(arg), simplify_block(body)) {
            Simp::InProgress((a, b)) => Simp::InProgress(Located { value: Statement::For { arg: a, body: b }, start, end }),
            Simp::Failed(e) => Simp::Failed(e),
        },
        ASTStatement::If { arg, body, else_ } => {
            let ab = both(simplify_query_expression(arg), simplify_block(body));
            let se: Simp<Option<Located<Block>>> = match else_ {
                Some(b) => match simplify_block(b) {
                    Simp::InProgress(x) => Simp::InProgress(Some(x)),
                    Simp::Failed(e) => Simp::Failed(e),
                },
                None => Simp::InProgress(None),
            };
            match both(ab, se) {
                Simp::InProgress(((a, b), e)) => Simp::InProgress(
                    Located { value: Statement::If { arg: a, body: b, else_: e }, start, end },
                ),
                Simp::Failed(e) => Simp::Failed(e),
            }
        },
        ASTStatement::Return { arg } => match simplify_expression(arg) {
            Simp::InProgress(a) => Simp::InProgress(Located { value: Statement::Return { arg: a }, start, end }),
            Simp::Failed(e) => Simp::Failed(e),
        },
        ASTStatement::Call { call } => match simplify_call(call) {
            Simp::InProgress(c) => Simp::InProgress(Located { value: Statement::Call { call: c }, start, end }),
            Simp::Failed(e) => Simp::Failed(e),
        },
        ASTStatement::Assign { first, variable, arg } => match both(
            simplify_assign_target(variable),
            simplify_expression(arg),
        ) {
            Simp::InProgress((v, a)) => Simp::InProgress(
                Located { value: Statement::Assign { first, variable: v, arg: a }, start, end },
            ),
            Simp::Failed(e) => Simp::Failed(e),
        },
        ASTStatement::Invalid(k) => fail_at(start, end, k),
    }
}

fn simplify_type(it: Located<ASTType>) -> (r: Simp<Located<Type>>)
    ensures
        simp_errors(r) == type_errors(it),
        r is InProgress <==> type_errors(it).len() == 0,
{
    let (start, end) = (it.start, it.end);
    match it.value {
        ASTType::Type { name } => Simp::InProgress(Located { value: Type { name }, start, end }),
        ASTType::Invalid(k) => fail_at(start, end, k),
    }
}

fn simplify_types(it: Located<ASTTypes>) -> (r: Simp<Vec<Located<Type>>>)
    ensures
        simp_errors(r) == types_errors(it),
        r is InProgress <==> types_errors(it).len() == 0,
{
    let (start, end) = (it.start, it.end);
    match it.value {
        ASTTypes::Types { types } => {
            let ghost errs = |x: Located<ASTType>| type_errors(x);
            let each = |x: Located<ASTType>| -> (s: Simp<Located<Type>>)
                ensures
                    simp_errors(s) == type_errors(x),
                    s is InProgress <==> type_errors(x).len() == 0,
                { simplify_type(x) };
            simplify_all(types, each, Ghost(errs))
        },
        ASTTypes::Invalid(k) => fail_at(start, end, k),
    }
}

fn simplify_arg(it: Located<ASTArg>) -> (r: Simp<Located<Arg>>)
    ensures
        simp_errors(r) == arg_errors(it),
        r is InProgress <==> arg_errors(it).len() == 0,
{
    let (start, end) = (it.start, it.end);
    match it.value {
        ASTArg::Arg { name, arg_type } => match arg_type {
            Some(t) => match simplify_type(t) {
                Simp::InProgress(x) => Simp::InProgress(Located { value: Arg { name, arg_type: Some(x) }, start, end }),
                Simp::Failed(e) => Simp::Failed(e),
            },
            None => Simp::InProgress(Located { value: Arg { name, arg_type: None }, start, end }),
        },
        ASTArg::Invalid(k) => fail_at(start, end, k),
    }
}

fn simplify_args(it: Located<ASTArgs>) -> (r: Simp<Vec<Located<Arg>>>)
    ensures
        simp_errors(r) == args_errors(it),
        r is InProgress <==> args_errors(it).len() == 0,
{
    let (start, end) = (it.start, it.end);
    match it.value {
        ASTArgs::Args { args } => {
            let ghost errs = |x: Located<ASTArg>| arg_errors(x);
            let each = |x: Located<ASTArg>| -> (s: Simp<Located<Arg>>)
                ensures
                    simp_errors(s) == arg_errors(x),
                    s is InProgress <==> arg_errors(x).len() == 0,
                { simplify_arg(x) };
            simplify_all(args, each, Ghost(errs))
        },
        ASTArgs::Invalid(k) => fail_at(start, end, k),
    }
}

fn simplify_def(it: Located<ASTDef>) -> (r: Simp<Located<Def>>)
    ensures
        simp_errors(r) == def_errors(it),
        r is InProgress <==> def_errors(it).len() == 0,
{
    let (start, end) = (it.start, it.end);
    match it.value {
        ASTDef::Def { name, args, return_type, body } => {
            let a = simplify_args(args);
            let t: Simp<Option<Vec<Located<Type>>>> = match return_type {
                Some(rt) => match simplify_types(rt) {
                    Simp::InProgress(x) => Simp::InProgress(Some(x)),
                    Simp::Failed(e) => Simp::Failed(e),
                },
                None => Simp::InProgress(None),
            };
            let b = simplify_block(body);
            match both(both(a, t), b) {
                Simp::InProgress(((a, t), b)) => Simp::InProgress(
                    Located { value: Def { name, args: a, return_type: t, body: b }, start, end },
                ),
                Simp::Failed(e) => Simp::Failed(e),
            }
        },
        ASTDef::Invalid(k) => fail_at(start, end, k),
    }
}

fn simplify_view(it: Located<ASTView>) -> (r: Simp<Located<ViewItem>>)
    ensures
        simp_errors(r) == view_errors(it),
        r is InProgress <==> view_errors(it).len() == 0,
{
    let (start, end) = (it.start, it.end);
    match it.value {
        ASTView::View { name, args, clauses } => {
            let a = simplify_args(args);
            let ghost errs = |q: Located<ASTQueryExpression>| qexpr_errors(q);
            let each = |q: Located<ASTQueryExpression>| -> (s: Simp<Located<QueryExpression>>)
                ensures
                    simp_errors(s) == qexpr_errors(q),
                    s is InProgress <==> qexpr_errors(q).len() == 0,
                { simplify_query_expression(q) };
            let c = simplify_all(clauses, each, Ghost(errs));
            match both(a, c) {
                Simp::InProgress((a, c)) => Simp::InProgress(
                    Located { value: ViewItem { name, args: a, clauses: c }, start, end },
                ),
                Simp::Failed(e) => Simp::Failed(e),
            }
        },
        ASTView::Invalid(k) => fail_at(start, end, k),
    }
}

fn simplify_item(it: Located<ASTItem>) -> (r: Simp<Located<Item>>)
    ensures
        simp_errors(r) == item_errors(it),
        r is InProgress <==> item_errors(it).len() == 0,
{
    let (start, end) = (it.start, it.end);
    match it.value {
        ASTItem::Def(d) => match simplify_def(Located { value: d, start, end }) {
            Simp::InProgress(x) => Simp::InProgress(Located { value: Item::Def(x.value), start, end }),
            Simp::Failed(e) => Simp::Failed(e),
        },
        ASTItem::View(v) => match simplify_view(Located { value: v, start, end }) {
            Simp::InProgress(x) => Simp::InProgress(Located { value: Item::View(x.value), start, end }),
            Simp::Failed(e) => Simp::Failed(e),
        },
        ASTItem::Invalid(k) => fail_at(start, end, k),
    }
}

/// Turns a parsed module into its final syntax tree, or returns every parse error it
/// holds, in source order.
pub fn simplify_module(it: Located<ASTModule>) -> (r: Result<Located<Module>, Errors>)
    ensures
        r is Ok <==> module_errors(it).len() == 0,
        r matches Err(e) ==> e@ == module_errors(it),
        r matches Ok(m) ==> m.start == it.start && m.end == it.end && (it.value matches ASTModule::Module { items }
            && m.value.items@.len() == items@.len()),
{
    let (start, end) = (it.start, it.end);
    let s: Simp<Located<Module>> = match it.value {
        ASTModule::Module { items } => {
            let ghost errs = |x: Located<ASTItem>| item_errors(x);
            let each = |x: Located<ASTItem>| -> (s: Simp<Located<Item>>)
                ensures
                    simp_errors(s) == item_errors(x),
                    s is InProgress <==> item_errors(x).len() == 0,
                { simplify_item(x) };
            match simplify_all(items, each, Ghost(errs)) {
                Simp::InProgress(v) => Simp::InProgress(Located { value: Module { items: v }, start, end }),
                Simp::Failed(e) => Simp::Failed(e),
            }
        },
        ASTModule::Invalid(k) => fail_at(start, end, k),
    };
    s.to_result()
}

} // verus!
