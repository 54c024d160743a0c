use vstd::prelude::*;
use vstd::string::*;

use crate::located::Located;
use crate::token::{token_eq, Token};

verus! {

/// A cursor over a token slice, with an end-of-file token that stands after the last one.
pub struct TStream<'a> {
    tokens: &'a [Located<Token>],
    eof: Located<Token>,
}

/// Whether two strings hold the same characters.
pub fn same_text(a: &str, b: &str) -> (r: bool)
    ensures
        r == (a@ == b@),
{
    let n = a.unicode_len();
    if n != b.unicode_len() {
        return false;
    }
    let mut i: usize = 0;
    while i < n
        invariant
            n == a@.len(),
            n == b@.len(),
            i <= n,
            forall|j: int| 0 <= j < i ==> a@[j] == b@[j],
        decreases n - i,
    {
        if a.get_char(i) != b.get_char(i) {
            return false;
        }
        i = i + 1;
    }
    assert(a@ =~= b@);
    true
}

/// A copy of a located token.
pub fn copy_located_token(t: &Located<Token>) -> (r: Located<Token>)
    ensures
        r == *t,
{
    Located { value: t.value.copied(), start: t.start, end: t.end }
}

pub open spec fn is_keyword_token(t: Token, s: Seq<char>) -> bool {
    match t {
        Token::Keyword(i) => i@ == s,
        _ => false,
    }
}

pub open spec fn is_identifier_token(t: Token) -> bool {
    t is Identifier
}

pub open spec fn is_variable_token(t: Token) -> bool {
    t is Variable
}

impl<'a> TStream<'a> {
    /// The tokens not yet consumed.
    pub closed spec fn rest(&self) -> Seq<Located<Token>> {
        self.tokens@
    }

    /// The end-of-file token.
    pub closed spec fn eof_token(&self) -> Located<Token> {
        self.eof
    }

    /// The end-of-file token is `EOF`.
    pub open spec fn wf(&self) -> bool {
        self.eof_token().value is EOF
    }

    /// The token at the cursor: the first one left, or end of file.
    pub open spec fn head(&self) -> Located<Token> {
        if self.rest().len() > 0 {
            self.rest()[0]
        } else {
            self.eof_token()
        }
    }

    /// The stream after consuming the head (end of file is never consumed).
    pub open spec fn stepped(&self, other: &TStream<'a>) -> bool {
        &&& other.eof_token() == self.eof_token()
        &&& other.rest() == if self.rest().len() > 0 {
            self.rest().drop_first()
        } else {
            self.rest()
        }
    }

    pub fn new(tokens: &'a [Located<Token>], eof: Located<()>) -> (r: Self)
        ensures
            r.wf(),
            r.rest() == tokens@,
            r.eof_token() == (Located { value: Token::EOF, start: eof.start, end: eof.end }),
    {
        TStream { tokens, eof: eof.replace(Token::EOF) }
    }

    /// How many tokens are left before end of file.
    pub fn remaining(&self) -> (r: usize)
        ensures
            r == self.rest().len(),
    {
        self.tokens.len()
    }

    /// An empty span at the start of the head token.
    pub fn location(&self) -> (r: Located<()>)
        ensures
            r.start == self.head().start,
            r.end == self.head().start,
    {
        let mut loc = if self.tokens.len() > 0 {
            self.tokens[0].location()
        } else {
            self.eof.location()
        };
        loc.end = loc.start;
        loc
    }

    /// Drops `amt` tokens; at end of file nothing happens.
    pub fn advance(&mut self, amt: usize)
        requires
            old(self).rest().len() > 0 ==> amt <= old(self).rest().len(),
        ensures
            final(self).eof_token() == old(self).eof_token(),
            final(self).rest() == if old(self).rest().len() > 0 {
                old(self).rest().subrange(amt as int, old(self).rest().len() as int)
            } else {
                old(self).rest()
            },
    {
        if self.tokens.len() > 0 {
            let (_, rest) = self.tokens.split_at(amt);
            self.tokens = rest;
        }
    }

    /// Consumes and returns the head when `f` accepts it.
    pub fn pop_tpred<F: Fn(&Token) -> bool>(&mut self, f: F) -> (r: Option<Located<Token>>)
        requires
            forall|t: &Token| f.requires((t,)),
        ensures
            match r {
                Some(t) => {
                    &&& t == old(self).head()
                    &&& f.ensures((&old(self).head().value,), true)
                    &&& old(self).stepped(final(self))
                },
                None => {
                    &&& f.ensures((&old(self).head().value,), false)
                    &&& *final(self) == *old(self)
                },
            },
    {
        let t = if self.tokens.len() > 0 {
            &self.tokens[0]
        } else {
            &self.eof
        };
        if f(&t.value) {
            let result = copy_located_token(t);
            self.advance(1);
            proof {
                if old(self).rest().len() > 0 {
                    assert(final(self).rest() =~= old(self).rest().drop_first());
                }
            }
            Some(result)
        } else {
            None
        }
    }

    /// Whether `f` accepts the head.
    pub fn peek_tpred<F: Fn(&Token) -> bool>(&self, f: F) -> (r: bool)
        requires
            forall|t: &Token| f.requires((t,)),
        ensures
            f.ensures((&self.head().value,), r),
    {
        let t = if self.tokens.len() > 0 {
            &self.tokens[0]
        } else {
            &self.eof
        };
        f(&t.value)
    }

    /// Consumes the head when it equals `t`.
    pub fn pop_eq(&mut self, t: &Token) -> (r: Option<Located<Token>>)
        ensures
            r is Some <==> token_eq(old(self).head().value, *t),
            r is Some ==> r == Some(old(self).head()) && old(self).stepped(final(self)),
            r is None ==> *final(self) == *old(self),
    {
        self.pop_tpred(|t2: &Token| -> (b: bool)
            ensures
                b == token_eq(*t2, *t),
            { t2.eq(t) })
    }

    /// Consumes the head when it is the keyword `s`.
    pub fn pop_keyword(&mut self, s: &str) -> (r: Option<Located<Token>>)
        ensures
            r is Some <==> is_keyword_token(old(self).head().value, s@),
            r is Some ==> r == Some(old(self).head()) && old(self).stepped(final(self)),
            r is None ==> *final(self) == *old(self),
    {
        self.pop_tpred(|t: &Token| -> (b: bool)
            ensures
                b == is_keyword_token(*t, s@),
            {
                match t {
                    Token::Keyword(i) => same_text(i.as_str(), s),
                    _ => false,
                }
            })
    }

    /// Consumes the head when it is an identifier, and returns its name.
    pub fn pop_identifier(&mut self) -> (r: Option<Located<String>>)
        ensures
            r is Some <==> is_identifier_token(old(self).head().value),
            r is Some ==> old(self).stepped(final(self)) && match old(self).head().value {
                Token::Identifier(v) => r->0.value@ == v@ && r->0.start == old(self).head().start
                    && r->0.end == old(self).head().end,
                _ => false,
            },
            r is None ==> *final(self) == *old(self),
    {
        let p = self.pop_tpred(|t: &Token| -> (b: bool)
            ensures
                b == is_identifier_token(*t),
            { matches!(t, Token::Identifier(_)) });
        match p {
            Some(o) => match o.value {
                Token::Identifier(v) => Some(Located { value: v, start: o.start, end: o.end }),
                _ => None,
            },
            None => None,
        }
    }

    /// Consumes the head when it is a variable, and returns its name.
    pub fn pop_variable(&mut self) -> (r: Option<Located<String>>)
        ensures
            r is Some <==> is_variable_token(old(self).head().value),
            r is Some ==> old(self).stepped(final(self)) && match old(self).head().value {
                Token::Variable(v) => r->0.value@ == v@ && r->0.start == old(self).head().start
                    && r->0.end == old(self).head().end,
                _ => false,
            },
            r is None ==> *final(self) == *old(self),
    {
        let p = self.pop_tpred(|t: &Token| -> (b: bool)
            ensures
                b == is_variable_token(*t),
            { matches!(t, Token::Variable(_)) });
        match p {
            Some(o) => match o.value {
                Token::Variable(v) => Some(Located { value: v, start: o.start, end: o.end }),
                _ => None,
            },
            None => None,
        }
    }

    /// Consumes and returns the head, whatever it is.
    pub fn pop_any(&mut self) -> (r: Located<Token>)
        ensures
            r == old(self).head(),
            old(self).stepped(final(self)),
    {
        let t = if self.tokens.len() > 0 {
            &self.tokens[0]
        } else {
            &self.eof
        };
        let result = copy_located_token(t);
        self.advance(1);
        proof {
            if old(self).rest().len() > 0 {
                assert(final(self).rest() =~= old(self).rest().drop_first());
            }
        }
        result
    }

    pub fn peek_eq(&self, t: &Token) -> (r: bool)
        ensures
            r == token_eq(self.head().value, *t),
    {
        self.peek_tpred(|t2: &Token| -> (b: bool)
            ensures
                b == token_eq(*t2, *t),
            { t2.eq(t) })
    }

    pub fn peek_keyword(&self, s: &str) -> (r: bool)
        ensures
            r == is_keyword_token(self.head().value, s@),
    {
        self.peek_tpred(|t: &Token| -> (b: bool)
            ensures
                b == is_keyword_token(*t, s@),
            {
                match t {
                    Token::Keyword(i) => same_text(i.as_str(), s),
                    _ => false,
                }
            })
    }

    pub fn peek_identifier(&self) -> (r: bool)
        ensures
            r == is_identifier_token(self.head().value),
    {
        self.peek_tpred(|t: &Token| -> (b: bool)
            ensures
                b == is_identifier_token(*t),
            { matches!(t, Token::Identifier(_)) })
    }

    pub fn peek_variable(&self) -> (r: bool)
        ensures
            r == is_variable_token(self.head().value),
    {
        self.peek_tpred(|t: &Token| -> (b: bool)
            ensures
                b == is_variable_token(*t),
            { matches!(t, Token::Variable(_)) })
    }

    pub fn peek_any(&self) -> (r: &Located<Token>)
        ensures
            *r == self.head(),
    {
        if self.tokens.len() == 0 {
            &self.eof
        } else {
            &self.tokens[0]
        }
    }
}

} // verus!
