use vstd::prelude::*;

use crate::located::Located;

verus! {


// == structural ==
#[derive(Debug)]
pub enum ASTModule {
    Module { 
        items: Vec<Located<ASTItem>>,
    },
    Invalid(KupoParseError),
}

#[derive(Debug)]
pub enum ASTItem {
    Def(ASTDef),
    View(ASTView),
    Invalid(KupoParseError),
}

#[derive(Debug)]
pub enum ASTDef {
    Def {
        name: Located<String>,
        args: Located<ASTArgs>,
        return_type: Option<Located<ASTTypes>>,
        body: Located<ASTBlock>
    },
    Invalid(KupoParseError),
}
#[derive(Debug)]
pub enum ASTView {
    View {
        name: Located<String>,
        args: Located<ASTArgs>,
        clauses: Vec<Located<ASTQueryExpression>>,
    },
    Invalid(KupoParseError),
}

#[derive(Debug)]
pub enum ASTArgs {
    Args {
        args: Vec<Located<ASTArg>>,
    },
    Invalid(KupoParseError),
}


#[derive(Debug)]
pub enum ASTTypes {
    Types {
        types: Vec<Located<ASTType>>,
    },
    Invalid(KupoParseError),
}


#[derive(Debug)]
pub enum ASTArg {
    Arg {
        name: Located<String>,
        arg_type: Option<Located<ASTType>>,
    },
    Invalid(KupoParseError),
}

#[derive(Debug)]
pub enum ASTType {
    Type { name: Located<String>, },
    Invalid(KupoParseError),
}

// == statement ==
#[derive(Debug)]
pub enum ASTBlock {
    Block {
        items: Vec<Located<ASTStatement>>
    },
    Invalid(KupoParseError),
}

#[derive(Debug)]
pub enum ASTStatement {
    For { 
        arg: Located<ASTQueryExpression>, 
        body: Located<ASTBlock>
    },
    If {
        arg: Located<ASTQueryExpression>,
        body: Located<ASTBlock>,
        else_: Option<Located<ASTBlock>>,
    },
    Return {
        arg: Located<ASTExpression>
    },
    Call { 
        call: Located<ASTCall>,
    },
    Assign {
        first: bool,
        variable: Located<ASTAssignTarget>,
        arg: Located<ASTExpression>,
    },
    Invalid(KupoParseError),
}

// == query expression ==
#[derive(Debug)]
pub enum ASTQueryExpression {
    QExpression { 
        items: Vec<Located<ASTQueryGoal>>,
    },
    Invalid(KupoParseError),
}

#[derive(Debug)]
pub enum ASTQueryGoal {
    Goal { 
        args: Located<ASTAssignTarget>,
        source: Located<ASTQueryGoalSource>,
    },
}

#[derive(Debug)]
pub enum ASTAssignTarget {
    Target {
        args: Vec<Located<ASTExpression>>,
    },
    Invalid(KupoParseError)
}

#[derive(Debug)]
pub enum ASTQueryGoalSource {
    In { from: Located<String>, },
    Assign { expression: Located<ASTExpression>, },
    Invalid(KupoParseError),
}

// == expression ==
#[derive(Debug)]
pub enum ASTExpression {
    StringLiteral { it: String },
    IntegerLiteral { it: u64 },
    Call { 
        call: Located<ASTCall>,
    },
    UOp {
        op: ASTUOp,
        arg: Box<Located<ASTExpression>>
    },
    BinOp {
        arg1: Box<Located<ASTExpression>>,
        op: ASTBinOp,
        arg2: Box<Located<ASTExpression>>,
    },
    Invalid(KupoParseError),
}

#[derive(Debug)]
pub enum ASTUOp { 
    Negate, Plus
}

#[derive(Debug)]
pub enum ASTBinOp { 
    Add, Subtract, Multiply, Divide
}

#[derive(Debug)]
pub enum ASTCall {
    Call {
        name: Located<String>,
        args: Located<ASTCallArgs>,
    },
    Invalid(KupoParseError),
}

#[derive(Debug)]
pub enum ASTCallArgs {
    Args {
        args: Vec<Located<ASTExpression>>
    },
    Invalid(KupoParseError),
}

#[derive(Debug)]
pub struct KupoParseError(pub String);

} // verus!

verus! {

/// A parse error for the message `s`.
pub fn kpe(s: &str) -> (r: KupoParseError)
    ensures
        r.0@ == s@,
{
    KupoParseError(s.to_string())
}

impl ASTBinOp {
    /// Binding strength: lower binds tighter.
    pub open spec fn level(&self) -> nat {
        match self {
            ASTBinOp::Multiply | ASTBinOp::Divide => 0,
            ASTBinOp::Add | ASTBinOp::Subtract => 1,
        }
    }

    /// Whether, with `self` on the left of `other`, `self` is applied first.
    pub open spec fn binds_before(&self, other: &ASTBinOp) -> bool {
        self.level() < other.level() || (self.level() == other.level() && self.is_left_associative())
    }

    pub open spec fn is_left_associative(&self) -> bool {
        true
    }

    pub fn precedence_level(&self) -> (r: usize)
        ensures
            r == self.level(),
    {
        match self {
            ASTBinOp::Multiply | ASTBinOp::Divide => 0,
            ASTBinOp::Add | ASTBinOp::Subtract => 1,
        }
    }

    pub fn left_associative(&self) -> (r: bool)
        ensures
            r == self.is_left_associative(),
    {
        match self {
            ASTBinOp::Add => true,
            ASTBinOp::Subtract => true,
            ASTBinOp::Multiply => true,
            ASTBinOp::Divide => true,
        }
    }

    /// Whether `self`, written to the left of `other`, is applied first.
    pub fn tighter_than(&self, other: &ASTBinOp) -> (r: bool)
        ensures
            r == self.binds_before(other),
    {
        if self.precedence_level() < other.precedence_level() {
            true
        } else if self.precedence_level() == other.precedence_level() {
            self.left_associative()
        } else {
            false
        }
    }
}

/// The operands and operators of an expression read left to right, with binary
/// operator nodes flattened; any other expression is one operand.
pub open spec fn infix(e: ASTExpression) -> Seq<Result<ASTExpression, ASTBinOp>>
    decreases e,
{
    match e {
        ASTExpression::BinOp { arg1, op, arg2 } => infix(arg1.value) + seq![
            Err::<ASTExpression, ASTBinOp>(op),
        ] + infix(arg2.value),
        _ => seq![Ok(e)],
    }
}

/// Somewhere down the right spine of `e`, a binary node applies `op` with `other`,
/// unchanged, as its right operand.
pub open spec fn holds_right(e: ASTExpression, op: ASTBinOp, other: Located<ASTExpression>) -> bool
    decreases e,
{
    match e {
        ASTExpression::BinOp { op: o, arg2, .. } => (o == op && *arg2 == other) || holds_right(arg2.value, op, other),
        _ => false,
    }
}

impl Located<ASTExpression> {
    /// Appends `op2 other` to this expression, placing the new operator by precedence:
    /// it descends the right spine past operators that bind looser than `op2`.
    pub fn add_using_precedence(self, op2: ASTBinOp, other: Located<ASTExpression>) -> (r: Located<ASTExpression>)
        ensures
            infix(r.value) == infix(self.value) + seq![Err::<ASTExpression, ASTBinOp>(op2)] + infix(other.value),
            holds_right(r.value, op2, other),
            r.value is BinOp,
            (self.value matches ASTExpression::BinOp { op: op1, .. } ==> op1.binds_before(&op2)) ==> r.value
                == (ASTExpression::BinOp {
                arg1: Box::new(Located { value: self.value, start: self.start, end: self.end }),
                op: op2,
                arg2: Box::new(other),
            }),
            r.start == crate::located::min_usize(self.start, other.start),
            r.end == crate::located::max_usize(self.end, other.end),
        decreases self.value,
    {
        let loc1 = self.location();
        let loc2 = other.location();
        let v1 = self.value;
        let v2 = other.value;
        let loc_overall = loc1.merge(loc2).location();
        let v_overall = match v1 {
            ASTExpression::BinOp { arg1, op: op1, arg2 } => {
                if op1.tighter_than(&op2) {
                    ASTExpression::BinOp {
                        arg1: Box::new(loc1.replace(ASTExpression::BinOp { arg1, op: op1, arg2 })),
                        op: op2,
                        arg2: Box::new(loc2.replace(v2)),
                    }
                } else {
                    let ghost a1 = infix(arg1.value);
                    let ghost a2 = infix(arg2.value);
                    let right = (*arg2).add_using_precedence(op2, loc2.replace(v2));
                    let e = ASTExpression::BinOp { arg1, op: op1, arg2: Box::new(right) };
                    assert(infix(e) =~= a1 + seq![Err::<ASTExpression, ASTBinOp>(op1)] + a2 + seq![
                        Err::<ASTExpression, ASTBinOp>(op2),
                    ] + infix(v2));
                    e
                }
            },
            other_value => ASTExpression::BinOp {
                arg1: Box::new(loc1.replace(other_value)),
                op: op2,
                arg2: Box::new(loc2.replace(v2)),
            },
        };
        loc_overall.replace(v_overall)
    }
}

} // verus!
