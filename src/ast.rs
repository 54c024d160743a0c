use vstd::prelude::*;

use crate::internal_ast::KupoParseError;
use crate::located::Located;

verus! {

// == structural ==
#[derive(Debug)]
pub struct Module {
    pub items: Vec<Located<Item>>
}

#[derive(Debug)]
pub enum Item {
    Def(Def),
    View(View),
}

#[derive(Debug)]
pub struct Def {
    pub name: Located<String>,
    pub args: Vec<Located<Arg>>,
    pub return_type: Option<Vec<Located<Type>>>,
    pub body: Located<Block>,
}

#[derive(Debug)]
pub struct View {
    pub name: Located<String>,
    pub args: Vec<Located<Arg>>,
    pub clauses: Vec<Located<QueryExpression>>
}

#[derive(Debug)]
pub struct Arg {
    pub name: Located<String>,
    pub arg_type: Option<Located<Type>>,
}

#[derive(Debug)]
pub struct Type {
    pub name: Located<String>,
}

// == statement ==
#[derive(Debug)]
pub struct Block {
    pub items: Vec<Located<Statement>>,
}

#[derive(Debug)]
pub enum Statement {
    For {
        arg: Located<QueryExpression>,
        body: Located<Block>,
    },
    If { 
        arg: Located<QueryExpression>,
        body: Located<Block>,
        else_: Option<Located<Block>>,
    },
    Return { 
        arg: Located<Expression>,
    },
    Call {
        call: Located<Call>
    },
    Assign {
        first: bool,
        variable: Located<AssignTarget>,

        arg: Located<Expression>,
    },
}

#[derive(Debug)]
pub struct AssignTarget {
    pub args: Vec<Located<Expression>>,
}

// == query expression ==
#[derive(Debug)]
pub struct QueryExpression {
    pub items: Vec<Located<QueryGoal>>
}

#[derive(Debug)]
pub enum QueryGoal {
    In {
        args: Located<AssignTarget>,
        from: Located<String>,
    },
    Assign {
        args: Located<AssignTarget>,
        expression: Located<Expression>
    },
}

// == expression ==
#[derive(Debug)]
pub enum Expression {
    StringLiteral { it: String },
    IntegerLiteral { it: u64 },
    Call { 
        call: Located<Call>
    },
    UOp {
        op: UOp,
        arg: Box<Located<Expression>>,
    },
    BinOp {
        arg1: Box<Located<Expression>>,
        op: BinOp,
        arg2: Box<Located<Expression>>,
    }
}

#[derive(Debug)]
pub enum UOp { Negate, Plus }

#[derive(Debug)]
pub enum BinOp { Add, Subtract, Multiply, Divide }

#[derive(Debug)]
pub struct Call {
    pub name: Located<String>,
    pub args: Vec<Located<Expression>>,
}

} // verus!
