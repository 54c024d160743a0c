use vstd::prelude::*;

verus! {

/// One lexical token of the source language.
#[derive(Debug)]
pub enum Token {
    Invalid(Invalid),
    Keyword(String),
    Identifier(String),
    Variable(String),
    Integer(u64),
    StringLiteral(String),
    Grouping(Grouping),
    Operator(Operator),
    EOF,
}

#[derive(Clone, Copy, Debug, PartialEq, Eq, Structural)]
pub enum Grouping {
    LParen,
    RParen,
    LBrace,
    RBrace,
    LBrack,
    RBrack,
    Comma,
    Semicolon,
}

#[derive(Clone, Copy, Debug, PartialEq, Eq, Structural)]
pub enum Operator {
    OAdd,
    OSubtract,
    OMultiply,
    ODivide,
    ODot,
    OAssign,
    OAssignNew,
}

/// Text that could not be read as a well-formed token.
#[derive(Debug)]
pub enum Invalid {
    Char(char),
    /// Position of the first fault, and a description of it.
    StringLiteral(usize, String),
    Integer(String),
}

/// Equality of tokens: the same variant with equal payloads, strings compared by content.
pub open spec fn invalid_eq(a: Invalid, b: Invalid) -> bool {
    match (a, b) {
        (Invalid::Char(x), Invalid::Char(y)) => x == y,
        (Invalid::StringLiteral(i, x), Invalid::StringLiteral(j, y)) => i == j && x@ == y@,
        (Invalid::Integer(x), Invalid::Integer(y)) => x@ == y@,
        _ => false,
    }
}

pub open spec fn token_eq(a: Token, b: Token) -> bool {
    match (a, b) {
        (Token::Invalid(x), Token::Invalid(y)) => invalid_eq(x, y),
        (Token::Keyword(x), Token::Keyword(y)) => x@ == y@,
        (Token::Identifier(x), Token::Identifier(y)) => x@ == y@,
        (Token::Variable(x), Token::Variable(y)) => x@ == y@,
        (Token::Integer(x), Token::Integer(y)) => x == y,
        (Token::StringLiteral(x), Token::StringLiteral(y)) => x@ == y@,
        (Token::Grouping(x), Token::Grouping(y)) => x == y,
        (Token::Operator(x), Token::Operator(y)) => x == y,
        (Token::EOF, Token::EOF) => true,
        _ => false,
    }
}

impl PartialEq for Invalid {
    fn eq(&self, o: &Invalid) -> (r: bool) {
        match (self, o) {
            (Invalid::Char(x), Invalid::Char(y)) => *x == *y,
            (Invalid::StringLiteral(i, x), Invalid::StringLiteral(j, y)) => *i == *j && x.eq(y),
            (Invalid::Integer(x), Invalid::Integer(y)) => x.eq(y),
            _ => false,
        }
    }
}

impl vstd::std_specs::cmp::PartialEqSpecImpl for Invalid {
    open spec fn obeys_eq_spec() -> bool {
        true
    }

    open spec fn eq_spec(&self, o: &Invalid) -> bool {
        invalid_eq(*self, *o)
    }
}

impl PartialEq for Token {
    fn eq(&self, o: &Token) -> (r: bool) {
        match (self, o) {
            (Token::Invalid(x), Token::Invalid(y)) => x.eq(y),
            (Token::Keyword(x), Token::Keyword(y)) => x.eq(y),
            (Token::Identifier(x), Token::Identifier(y)) => x.eq(y),
            (Token::Variable(x), Token::Variable(y)) => x.eq(y),
            (Token::Integer(x), Token::Integer(y)) => *x == *y,
            (Token::StringLiteral(x), Token::StringLiteral(y)) => x.eq(y),
            (Token::Grouping(x), Token::Grouping(y)) => *x == *y,
            (Token::Operator(x), Token::Operator(y)) => *x == *y,
            (Token::EOF, Token::EOF) => true,
            _ => false,
        }
    }
}

impl vstd::std_specs::cmp::PartialEqSpecImpl for Token {
    open spec fn obeys_eq_spec() -> bool {
        true
    }

    open spec fn eq_spec(&self, o: &Token) -> bool {
        token_eq(*self, *o)
    }
}

impl Invalid {
    /// A copy of this value.
    pub fn copied(&self) -> (r: Invalid)
        ensures
            r == *self,
    {
        match self {
            Invalid::Char(c) => Invalid::Char(*c),
            Invalid::StringLiteral(i, s) => Invalid::StringLiteral(*i, s.clone()),
            Invalid::Integer(s) => Invalid::Integer(s.clone()),
        }
    }
}

impl Token {
    /// A copy of this token.
    pub fn copied(&self) -> (r: Token)
        ensures
            r == *self,
    {
        match self {
            Token::Invalid(i) => Token::Invalid(i.copied()),
            Token::Keyword(s) => Token::Keyword(s.clone()),
            Token::Identifier(s) => Token::Identifier(s.clone()),
            Token::Variable(s) => Token::Variable(s.clone()),
            Token::Integer(n) => Token::Integer(*n),
            Token::StringLiteral(s) => Token::StringLiteral(s.clone()),
            Token::Grouping(g) => Token::Grouping(*g),
            Token::Operator(o) => Token::Operator(*o),
            Token::EOF => Token::EOF,
        }
    }
}

} // verus!
