use vstd::prelude::*;

use crate::internal_ast::{
    kpe, ASTArg, ASTArgs, ASTAssignTarget, ASTBinOp, ASTBlock, ASTCall, ASTCallArgs, ASTDef, ASTExpression, ASTItem,
    ASTModule, ASTQueryExpression, ASTQueryGoal, ASTQueryGoalSource, ASTStatement, ASTType, ASTTypes, ASTUOp, ASTView,
    KupoParseError,
};
use crate::located::Located;
use crate::token::{token_eq, Grouping, Operator, Token};
use crate::tstream::{is_keyword_token, TStream};

verus! {

/// How a delimited, possibly separated, group of items is written.
pub struct DelimitedMany {
    /// Whether a single item without delimiters is accepted.
    pub can_be_bare: bool,
    /// Whether the closing delimiter is consumed.
    pub consume_rhs: bool,
    /// The opening delimiter and the message when it is missing.
    pub lhs: Option<(Token, &'static str)>,
    /// The closing delimiter and the message when it is missing.
    pub rhs: (Token, &'static str),
    pub separator: Option<Token>,
}

impl DelimitedMany {
    pub open spec fn opens_with(&self, t: Token) -> bool {
        self.lhs matches Some(l) && token_eq(l.0, t)
    }

    pub open spec fn closes_with(&self, t: Token) -> bool {
        token_eq(self.rhs.0, t)
    }

    /// Items in parentheses.
    pub fn parens_basis() -> (r: Self)
        ensures
            !r.can_be_bare && r.consume_rhs && r.separator is None,
            r.opens_with(Token::Grouping(Grouping::LParen)),
            r.closes_with(Token::Grouping(Grouping::RParen)),
            r.lhs matches Some(x) && x.1@ == "left paren expected"@,
            r.rhs.1@ == "right paren expected"@,
    {
        DelimitedMany {
            can_be_bare: false,
            consume_rhs: true,
            lhs: Some((Token::Grouping(Grouping::LParen), "left paren expected")),
            rhs: (Token::Grouping(Grouping::RParen), "right paren expected"),
            separator: None,
        }
    }

    /// Items in brackets.
    pub fn brackets_basis() -> (r: Self)
        ensures
            !r.can_be_bare && r.consume_rhs && r.separator is None,
            r.opens_with(Token::Grouping(Grouping::LBrack)),
            r.closes_with(Token::Grouping(Grouping::RBrack)),
            r.lhs matches Some(x) && x.1@ == "left bracket expected"@,
            r.rhs.1@ == "right bracket expected"@,
    {
        DelimitedMany {
            can_be_bare: false,
            consume_rhs: true,
            lhs: Some((Token::Grouping(Grouping::LBrack), "left bracket expected")),
            rhs: (Token::Grouping(Grouping::RBrack), "right bracket expected"),
            separator: None,
        }
    }

    /// Items in braces.
    pub fn braces_basis() -> (r: Self)
        ensures
            !r.can_be_bare && r.consume_rhs && r.separator is None,
            r.opens_with(Token::Grouping(Grouping::LBrace)),
            r.closes_with(Token::Grouping(Grouping::RBrace)),
            r.lhs matches Some(x) && x.1@ == "left bracket expected"@,
            r.rhs.1@ == "right bracket expected"@,
    {
        DelimitedMany {
            can_be_bare: false,
            consume_rhs: true,
            lhs: Some((Token::Grouping(Grouping::LBrace), "left bracket expected")),
            rhs: (Token::Grouping(Grouping::RBrace), "right bracket expected"),
            separator: None,
        }
    }
}

/// A recursive-descent parser over a token stream.
pub struct Parser<'a> {
    pub ts: TStream<'a>,
}

/// `b` is what is left of `a` after dropping some leading tokens.
pub open spec fn is_suffix<T>(a: Seq<T>, b: Seq<T>) -> bool {
    b.len() <= a.len() && b == a.subrange(a.len() - b.len(), a.len() as int)
}

/// The token values of `s`.
pub open spec fn token_values(s: Seq<Located<Token>>) -> Seq<Token> {
    s.map_values(|t: Located<Token>| t.value)
}

pub open spec fn lbraces(s: Seq<Token>) -> nat
    decreases s.len(),
{
    if s.len() == 0 {
        0
    } else {
        lbraces(s.drop_last()) + if s.last() == Token::Grouping(Grouping::LBrace) { 1nat } else { 0nat }
    }
}

pub open spec fn rbraces(s: Seq<Token>) -> nat
    decreases s.len(),
{
    if s.len() == 0 {
        0
    } else {
        rbraces(s.drop_last()) + if s.last() == Token::Grouping(Grouping::RBrace) { 1nat } else { 0nat }
    }
}

/// Skipping stops after these tokens: the last is end of file, or a block was opened and
/// every opened block is closed.
pub open spec fn stops_skip(s: Seq<Token>) -> bool {
    &&& s.len() > 0
    &&& (s.last() is EOF || (lbraces(s) > 0 && lbraces(s) <= rbraces(s)))
}

/// The values of a prefix are the prefix of the values.
proof fn lemma_prefixes_of_values(s: Seq<Located<Token>>, c: int)
    requires
        0 <= c <= s.len(),
    ensures
        forall|k: int| 0 <= k <= c ==> #[trigger] token_values(s.take(c)).take(k) == token_values(s.take(k)),
{
    assert forall|k: int| 0 <= k <= c implies #[trigger] token_values(s.take(c)).take(k) == token_values(s.take(k)) by {
        assert(token_values(s.take(c)).take(k) =~= token_values(s.take(k)));
    }
}

/// The stream `b` is `a` moved forward, over the same tokens and end of file.
pub open spec fn advanced(a: TStream, b: TStream) -> bool {
    &&& b.wf()
    &&& b.eof_token() == a.eof_token()
    &&& is_suffix(a.rest(), b.rest())
}

pub proof fn lemma_advanced_trans(a: TStream, b: TStream, c: TStream)
    requires
        advanced(a, b),
        advanced(b, c),
    ensures
        advanced(a, c),
{
    assert(c.rest() =~= a.rest().subrange(a.rest().len() - c.rest().len(), a.rest().len() as int));
}

pub proof fn lemma_advanced_refl(a: TStream)
    requires
        a.wf(),
    ensures
        advanced(a, a),
{
    assert(a.rest() =~= a.rest().subrange(0, a.rest().len() as int));
}

pub proof fn lemma_stepped_advanced(a: TStream, b: TStream)
    requires
        a.wf(),
        a.stepped(&b),
    ensures
        advanced(a, b),
        !(a.head().value is EOF) ==> b.rest().len() < a.rest().len(),
{
    if a.rest().len() > 0 {
        assert(b.rest() =~= a.rest().subrange(1, a.rest().len() as int));
    } else {
        assert(b.rest() =~= a.rest().subrange(0, a.rest().len() as int));
    }
}

impl<'a> Parser<'a> {
    /// Skips to where the next item probably starts: just before a `fn` or `view`
    /// keyword, or just after end of file or the brace that closes the first block
    /// opened. Returns the span skipped.
    pub fn skip_to_next_item(&mut self) -> (r: Located<()>)
        requires
            old(self).ts.wf(),
        ensures
            final(self).ts.wf(),
            final(self).ts.eof_token() == old(self).ts.eof_token(),
            is_suffix(old(self).ts.rest(), final(self).ts.rest()),
            r.start <= old(self).ts.head().start,
            ({
                let c = old(self).ts.rest().len() - final(self).ts.rest().len();
                let consumed = token_values(old(self).ts.rest().take(c));
                &&& forall|k: int| 1 <= k < c ==> !stops_skip(#[trigger] consumed.take(k))
                &&& (c >= 1 && stops_skip(consumed)) || ((c == 0 || !stops_skip(consumed)) && (is_keyword_token(
                    final(self).ts.head().value,
                    "fn"@,
                ) || is_keyword_token(final(self).ts.head().value, "view"@) || final(self).ts.rest().len() == 0))
            }),
    {
        let mut opens: usize = 0;
        let mut closes: usize = 0;
        let mut loc: Located<()> = self.ts.location();
        let ghost start = self.ts.rest();
        let total = self.ts.remaining();
        assert(start.subrange(0, start.len() as int) =~= start);
        assert(token_values(start.take(0)) =~= Seq::<Token>::empty());
        loop
            invariant
                self.ts.wf(),
                self.ts.eof_token() == old(self).ts.eof_token(),
                start == old(self).ts.rest(),
                start.len() == total,
                is_suffix(start, self.ts.rest()),
                loc.start <= old(self).ts.head().start,
                opens == lbraces(token_values(start.take(start.len() - self.ts.rest().len()))),
                closes == rbraces(token_values(start.take(start.len() - self.ts.rest().len()))),
                opens + closes <= start.len() - self.ts.rest().len(),
                forall|k: int|
                    1 <= k <= start.len() - self.ts.rest().len() ==> !stops_skip(
                        #[trigger] token_values(start.take(start.len() - self.ts.rest().len())).take(k),
                    ),
            decreases self.ts.rest().len(),
        {
            let ghost c0 = start.len() - self.ts.rest().len();
            let ghost vals0 = token_values(start.take(c0));
            if self.ts.peek_keyword("fn") {
                proof { lemma_prefixes_of_values(start, c0); }
                return loc;
            }
            if self.ts.peek_keyword("view") {
                proof { lemma_prefixes_of_values(start, c0); }
                return loc;
            }
            let ghost before = self.ts.rest();
            let at_end = self.ts.remaining() == 0;
            let t = self.ts.pop_any();
            loc = loc.merge_l(&t).location();
            if at_end {
                // end of file was popped; nothing more to skip
                proof {
                    lemma_prefixes_of_values(start, c0);
                }
                return loc;
            }
            proof {
                assert(self.ts.rest() =~= start.subrange(start.len() - self.ts.rest().len(), start.len() as int));
                assert(start[c0] == t);
                assert(start.take(c0 + 1) =~= start.take(c0).push(t));
                assert(token_values(start.take(c0 + 1)) =~= vals0.push(t.value));
            }
            if t.value.eq(&Token::Grouping(Grouping::LBrace)) {
                opens = opens + 1;
            }
            if t.value.eq(&Token::Grouping(Grouping::RBrace)) {
                closes = closes + 1;
            }
            proof {
                let vals1 = token_values(start.take(c0 + 1));
                assert(vals1.drop_last() =~= vals0);
                assert forall|k: int| 1 <= k <= c0 implies #[trigger] vals1.take(k) == vals0.take(k) by {
                    assert(vals1.take(k) =~= vals0.take(k));
                }
                assert(vals1.take(c0 + 1) =~= vals1);
            }
            if t.value.eq(&Token::EOF) || (opens > 0 && opens <= closes) {
                proof { lemma_prefixes_of_values(start, c0 + 1); }
                return loc;
            }
        }
    }

    /// Skips one token, returning its span.
    pub fn skip_to_next_statement(&mut self) -> (r: Located<()>)
        ensures
            old(self).ts.stepped(&final(self).ts),
            r.start == old(self).ts.head().start,
            r.end == old(self).ts.head().end,
    {
        self.ts.pop_any().replace(())
    }

    /// Skips one token, returning its span.
    pub fn skip_to_end_of_expression(&mut self) -> (r: Located<()>)
        ensures
            old(self).ts.stepped(&final(self).ts),
            r.start == old(self).ts.head().start,
            r.end == old(self).ts.head().end,
    {
        self.ts.pop_any().replace(())
    }

    /// A node built by `f` from the parse error `s`, placed at the cursor.
    pub fn give_up<T, F: FnOnce(KupoParseError) -> T>(&self, s: &str, f: F) -> (r: Located<T>)
        requires
            forall|e: KupoParseError| f.requires((e,)),
        ensures
            exists|e: KupoParseError| e.0@ == s@ && #[trigger] f.ensures((e,), r.value),
            r.start == self.ts.head().start,
            r.end == self.ts.head().start,
    {
        let e = kpe(s);
        self.ts.location().replace(f(e))
    }
    /// `value` placed over the span from `loc1` to the cursor.
    fn span<T>(&self, loc1: Located<()>, value: T) -> (r: Located<T>)
        ensures
            r.value == value,
    {
        let loc2 = self.ts.location();
        loc1.merge_l(&loc2).replace(value)
    }

    /// Consumes `t` if it is next; reports whether it did.
    fn eat(&mut self, t: &Token) -> (r: bool)
        requires
            old(self).ts.wf(),
            !(t is EOF),
        ensures
            advanced(old(self).ts, final(self).ts),
            r ==> final(self).ts.rest().len() < old(self).ts.rest().len(),
            !r ==> final(self).ts == old(self).ts,
    {
        let popped = self.ts.pop_eq(t);
        proof {
            lemma_advanced_refl(old(self).ts);
            if popped is Some {
                lemma_stepped_advanced(old(self).ts, self.ts);
            }
        }
        popped.is_some()
    }

    /// Consumes the keyword `k` if it is next; reports whether it did.
    fn eat_keyword(&mut self, k: &str) -> (r: bool)
        requires
            old(self).ts.wf(),
        ensures
            advanced(old(self).ts, final(self).ts),
            r ==> final(self).ts.rest().len() < old(self).ts.rest().len(),
            !r ==> final(self).ts == old(self).ts,
    {
        let popped = self.ts.pop_keyword(k);
        proof {
            lemma_advanced_refl(old(self).ts);
            if popped is Some {
                lemma_stepped_advanced(old(self).ts, self.ts);
            }
        }
        popped.is_some()
    }

    /// Opens a group: `Some(Ok)` when the opener was consumed (or there is none), `None`
    /// when it is missing and a bare item is allowed, `Some(Err)` when it is missing.
    fn group_open(&mut self, rules: &DelimitedMany) -> (r: Option<Result<(), KupoParseError>>)
        requires
            old(self).ts.wf(),
            rules.lhs matches Some(l) ==> !(l.0 is EOF),
        ensures
            advanced(old(self).ts, final(self).ts),
            rules.lhs is None ==> (r matches Some(Ok(_))) && final(self).ts == old(self).ts,
            rules.lhs is Some && (r matches Some(Ok(_))) ==> final(self).ts.rest().len() < old(self).ts.rest().len(),
            !(r matches Some(Ok(_))) ==> final(self).ts == old(self).ts,
            r is None ==> rules.can_be_bare,
            r matches Some(Err(e)) ==> (!rules.can_be_bare && (rules.lhs matches Some(l) && e.0@ == l.1@)),
    {
        proof {
            lemma_advanced_refl(old(self).ts);
        }
        match &rules.lhs {
            Some((lhs, lmsg)) => {
                if self.eat(lhs) {
                    Some(Ok(()))
                } else if rules.can_be_bare {
                    None
                } else {
                    Some(Err(kpe(lmsg)))
                }
            },
            None => Some(Ok(())),
        }
    }

    /// Closes a group: consumes or checks the closer.
    fn group_close(&mut self, rules: &DelimitedMany) -> (r: Result<(), KupoParseError>)
        requires
            old(self).ts.wf(),
        ensures
            advanced(old(self).ts, final(self).ts),
    {
        proof {
            lemma_advanced_refl(old(self).ts);
        }
        let (rhs, rmsg) = &rules.rhs;
        if rules.consume_rhs {
            let popped = self.ts.pop_eq(rhs);
            proof {
                if popped is Some {
                    lemma_stepped_advanced(old(self).ts, self.ts);
                }
            }
            if popped.is_none() {
                return Err(kpe(rmsg));
            }
        } else {
            if !self.ts.peek_eq(rhs) {
                return Err(kpe(rmsg));
            }
        }
        Ok(())
    }

    // == structural ==

    /// Parses a whole module: items up to end of file.
    pub fn parse_module(&mut self) -> (r: Located<ASTModule>)
        requires
            old(self).ts.wf(),
        ensures
            advanced(old(self).ts, final(self).ts),
    {
        let loc1 = self.ts.location();
        let mut rules = DelimitedMany::braces_basis();
        rules.separator = None;
        rules.lhs = None;
        rules.rhs = (Token::EOF, "end of file");
        let mut items: Vec<Located<ASTItem>> = Vec::new();
        let mut failed: Option<KupoParseError> = None;
        proof {
            lemma_advanced_refl(old(self).ts);
        }
        loop
            invariant
                advanced(old(self).ts, self.ts),
            decreases self.ts.rest().len(),
        {
            if self.ts.peek_eq(&Token::EOF) {
                break;
            }
            let ghost before = self.ts;
            let left = self.ts.remaining();
            let item = self.parse_item();
            items.push(item);
            proof {
                lemma_advanced_trans(old(self).ts, before, self.ts);
            }
            if self.ts.remaining() >= left {
                // an item that reads nothing would be read again forever
                failed = Some(kpe("expected def or view"));
                break;
            }
        }
        let value = match failed {
            Some(e) => ASTModule::Invalid(e),
            None => {
                let ghost before = self.ts;
                let closed = self.group_close(&rules);
                proof {
                    lemma_advanced_trans(old(self).ts, before, self.ts);
                }
                match closed {
                    Ok(()) => ASTModule::Module { items },
                    Err(e) => ASTModule::Invalid(e),
                }
            },
        };
        self.span(loc1, value)
    }

    fn parse_item(&mut self) -> (r: Located<ASTItem>)
        requires
            old(self).ts.wf(),
        ensures
            advanced(old(self).ts, final(self).ts),
    {
        if self.ts.peek_keyword("def") {
            let d = self.parse_def();
            Located { value: ASTItem::Def(d.value), start: d.start, end: d.end }
        } else if self.ts.peek_keyword("view") {
            let v = self.parse_view();
            Located { value: ASTItem::View(v.value), start: v.start, end: v.end }
        } else {
            self.skip_to_next_item().replace(ASTItem::Invalid(kpe("unrecognized item: expected def or view")))
        }
    }

    fn parse_def(&mut self) -> (r: Located<ASTDef>)
        requires
            old(self).ts.wf(),
        ensures
            advanced(old(self).ts, final(self).ts),
    {
        let loc1 = self.ts.location();
        proof {
            lemma_advanced_refl(old(self).ts);
        }
        if !self.eat_keyword("def") {
            return self.span(loc1, ASTDef::Invalid(kpe("expected def")));
        }
        let ghost s1 = self.ts;
        let name = self.ts.pop_identifier();
        proof {
            lemma_advanced_refl(s1);
            if name is Some {
                lemma_stepped_advanced(s1, self.ts);
            }
            lemma_advanced_trans(old(self).ts, s1, self.ts);
        }
        let name = match name {
            Some(n) => n,
            None => {
                return self.span(loc1, ASTDef::Invalid(kpe("function name expected")));
            },
        };
        let ghost s2 = self.ts;
        let args = self.parse_args_parens();
        let ghost s3 = self.ts;
        proof {
            lemma_advanced_trans(old(self).ts, s2, s3);
        }
        let return_type = if self.ts.peek_eq(&Token::Grouping(Grouping::LBrack)) {
            Some(self.parse_types_bracks())
        } else {
            None
        };
        let ghost s4 = self.ts;
        proof {
            lemma_advanced_refl(s3);
            lemma_advanced_trans(old(self).ts, s3, s4);
        }
        let body = self.parse_block();
        proof {
            lemma_advanced_trans(old(self).ts, s4, self.ts);
        }
        self.span(loc1, ASTDef::Def { name, args, return_type, body })
    }

    fn parse_view(&mut self) -> (r: Located<ASTView>)
        requires
            old(self).ts.wf(),
        ensures
            advanced(old(self).ts, final(self).ts),
    {
        let loc1 = self.ts.location();
        proof {
            lemma_advanced_refl(old(self).ts);
        }
        if !self.eat_keyword("view") {
            return self.span(loc1, ASTView::Invalid(kpe("expected view")));
        }
        let ghost s1 = self.ts;
        let args = self.parse_args_bracks();
        let ghost s2 = self.ts;
        proof {
            lemma_advanced_trans(old(self).ts, s1, s2);
        }
        if !self.eat_keyword("in") {
            return self.span(loc1, ASTView::Invalid(kpe("expected in")));
        }
        let ghost s3 = self.ts;
        let name = self.ts.pop_identifier();
        proof {
            lemma_advanced_trans(old(self).ts, s2, s3);
            lemma_advanced_refl(s3);
            if name is Some {
                lemma_stepped_advanced(s3, self.ts);
            }
            lemma_advanced_trans(old(self).ts, s3, self.ts);
        }
        let name = match name {
            Some(n) => n,
            None => {
                return self.span(loc1, ASTView::Invalid(kpe("view name expected")));
            },
        };
        let ghost s4 = self.ts;
        let body = self.parse_block_query_expression();
        proof {
            lemma_advanced_trans(old(self).ts, s4, self.ts);
        }
        let mut clauses = vec![body];
        loop
            invariant
                advanced(old(self).ts, self.ts),
            decreases self.ts.rest().len(),
        {
            let ghost s5 = self.ts;
            if !self.eat_keyword("or") {
                break;
            }
            let ghost s6 = self.ts;
            clauses.push(self.parse_block_query_expression());
            proof {
                lemma_advanced_trans(old(self).ts, s5, s6);
                lemma_advanced_trans(old(self).ts, s6, self.ts);
                lemma_advanced_trans(s5, s6, self.ts);
            }
        }
        self.span(loc1, ASTView::View { name, args, clauses })
    }

    fn parse_args_parens(&mut self) -> (r: Located<ASTArgs>)
        requires
            old(self).ts.wf(),
        ensures
            advanced(old(self).ts, final(self).ts),
    {
        let mut rules = DelimitedMany::parens_basis();
        rules.separator = Some(Token::Grouping(Grouping::Comma));
        self.parse_args_group(rules)
    }

    fn parse_args_bracks(&mut self) -> (r: Located<ASTArgs>)
        requires
            old(self).ts.wf(),
        ensures
            advanced(old(self).ts, final(self).ts),
    {
        let mut rules = DelimitedMany::brackets_basis();
        rules.can_be_bare = true;
        rules.separator = Some(Token::Grouping(Grouping::Comma));
        self.parse_args_group(rules)
    }

    /// Arguments as `rules` delimit them, separated by commas.
    fn parse_args_group(&mut self, rules: DelimitedMany) -> (r: Located<ASTArgs>)
        requires
            old(self).ts.wf(),
            rules.lhs matches Some(l) ==> !(l.0 is EOF),
        ensures
            advanced(old(self).ts, final(self).ts),
    {
        let loc1 = self.ts.location();
        let value = match self.group_open(&rules) {
            None => ASTArgs::Args { args: vec![self.parse_arg()] },
            Some(Err(e)) => ASTArgs::Invalid(e),
            Some(Ok(())) => {
                let mut xs: Vec<Located<ASTArg>> = Vec::new();
                let mut failed: Option<KupoParseError> = None;
                loop
                    invariant
                        advanced(old(self).ts, self.ts),
                    decreases self.ts.rest().len(),
                {
                    if self.ts.peek_eq(&rules.rhs.0) {
                        break;
                    }
                    if self.ts.peek_eq(&Token::EOF) {
                        failed = Some(kpe("found EOF before end of group"));
                        break;
                    }
                    let ghost before = self.ts;
                    xs.push(self.parse_arg());
                    let ghost mid = self.ts;
                    let more = self.eat(&Token::Grouping(Grouping::Comma));
                    proof {
                        lemma_advanced_trans(old(self).ts, before, mid);
                        lemma_advanced_trans(old(self).ts, mid, self.ts);
                    }
                    if !more {
                        break;
                    }
                }
                match failed {
                    Some(e) => ASTArgs::Invalid(e),
                    None => {
                        let ghost before = self.ts;
                        let closed = self.group_close(&rules);
                        proof {
                            lemma_advanced_trans(old(self).ts, before, self.ts);
                        }
                        match closed {
                            Ok(()) => ASTArgs::Args { args: xs },
                            Err(e) => ASTArgs::Invalid(e),
                        }
                    }
                }
            },
        };
        self.span(loc1, value)
    }

    fn parse_arg(&mut self) -> (r: Located<ASTArg>)
        requires
            old(self).ts.wf(),
        ensures
            advanced(old(self).ts, final(self).ts),
    {
        let loc1 = self.ts.location();
        let name = self.ts.pop_variable();
        proof {
            lemma_advanced_refl(old(self).ts);
            if name is Some {
                lemma_stepped_advanced(old(self).ts, self.ts);
            }
        }
        let name = match name {
            Some(n) => n,
            None => {
                return self.span(loc1, ASTArg::Invalid(kpe("expected string")));
            },
        };
        let ghost before = self.ts;
        let t = self.parse_optional_type();
        proof {
            lemma_advanced_trans(old(self).ts, before, self.ts);
        }
        let arg_type = match t.value {
            Some(x) => Some(Located { value: x, start: t.start, end: t.end }),
            None => None,
        };
        self.span(loc1, ASTArg::Arg { name, arg_type })
    }

    fn parse_types_bracks(&mut self) -> (r: Located<ASTTypes>)
        requires
            old(self).ts.wf(),
        ensures
            advanced(old(self).ts, final(self).ts),
    {
        let loc1 = self.ts.location();
        let mut rules = DelimitedMany::brackets_basis();
        rules.separator = Some(Token::Grouping(Grouping::Comma));
        let value = match self.group_open(&rules) {
            None => ASTTypes::Types { types: vec![self.parse_type()] },
            Some(Err(e)) => ASTTypes::Invalid(e),
            Some(Ok(())) => {
                let mut xs: Vec<Located<ASTType>> = Vec::new();
                let mut failed: Option<KupoParseError> = None;
                loop
                    invariant
                        advanced(old(self).ts, self.ts),
                    decreases self.ts.rest().len(),
                {
                    if self.ts.peek_eq(&rules.rhs.0) {
                        break;
                    }
                    if self.ts.peek_eq(&Token::EOF) {
                        failed = Some(kpe("found EOF before end of group"));
                        break;
                    }
                    let ghost before = self.ts;
                    xs.push(self.parse_type());
                    let ghost mid = self.ts;
                    let more = self.eat(&Token::Grouping(Grouping::Comma));
                    proof {
                        lemma_advanced_trans(old(self).ts, before, mid);
                        lemma_advanced_trans(old(self).ts, mid, self.ts);
                    }
                    if !more {
                        break;
                    }
                }
                match failed {
                    Some(e) => ASTTypes::Invalid(e),
                    None => {
                        let ghost before = self.ts;
                        let closed = self.group_close(&rules);
                        proof {
                            lemma_advanced_trans(old(self).ts, before, self.ts);
                        }
                        match closed {
                            Ok(()) => ASTTypes::Types { types: xs },
                            Err(e) => ASTTypes::Invalid(e),
                        }
                    }
                }
            },
        };
        self.span(loc1, value)
    }

    fn parse_type(&mut self) -> (r: Located<ASTType>)
        requires
            old(self).ts.wf(),
        ensures
            advanced(old(self).ts, final(self).ts),
    {
        let loc1 = self.ts.location();
        let name = self.ts.pop_identifier();
        proof {
            lemma_advanced_refl(old(self).ts);
            if name is Some {
                lemma_stepped_advanced(old(self).ts, self.ts);
            }
        }
        match name {
            Some(name) => self.span(loc1, ASTType::Type { name }),
            None => self.span(loc1, ASTType::Invalid(kpe("expected type"))),
        }
    }

    fn parse_optional_type(&mut self) -> (r: Located<Option<ASTType>>)
        requires
            old(self).ts.wf(),
        ensures
            advanced(old(self).ts, final(self).ts),
    {
        let loc1 = self.ts.location();
        let name = self.ts.pop_identifier();
        proof {
            lemma_advanced_refl(old(self).ts);
            if name is Some {
                lemma_stepped_advanced(old(self).ts, self.ts);
            }
        }
        match name {
            Some(name) => self.span(loc1, Some(ASTType::Type { name })),
            None => self.span(loc1, None),
        }
    }

    // == statements ==

    fn parse_block(&mut self) -> (r: Located<ASTBlock>)
        requires
            old(self).ts.wf(),
        ensures
            advanced(old(self).ts, final(self).ts),
        decreases old(self).ts.rest().len(), 8nat,
    {
        let loc1 = self.ts.location();
        let mut rules = DelimitedMany::braces_basis();
        rules.separator = Some(Token::Grouping(Grouping::Semicolon));
        proof {
            lemma_advanced_refl(old(self).ts);
        }
        let opened = self.group_open(&rules);
        let value = match opened {
            None => {
                let x = self.parse_statement();
                ASTBlock::Block { items: vec![x] }
            },
            Some(Err(e)) => ASTBlock::Invalid(e),
            Some(Ok(())) => {
                let mut xs: Vec<Located<ASTStatement>> = Vec::new();
                let mut failed: Option<KupoParseError> = None;
                let ghost opened_at = self.ts;
                proof {
                    lemma_advanced_refl(opened_at);
                }
                loop
                    invariant
                        advanced(old(self).ts, self.ts),
                        advanced(opened_at, self.ts),
                        opened_at.rest().len() < old(self).ts.rest().len(),
                    decreases self.ts.rest().len(),
                {
                    if self.ts.peek_eq(&rules.rhs.0) {
                        break;
                    }
                    if self.ts.peek_eq(&Token::EOF) {
                        failed = Some(kpe("found EOF before end of group"));
                        break;
                    }
                    let ghost before = self.ts;
                    xs.push(self.parse_statement());
                    let ghost mid = self.ts;
                    let more = self.eat(&Token::Grouping(Grouping::Semicolon));
                    proof {
                        lemma_advanced_trans(old(self).ts, before, mid);
                        lemma_advanced_trans(old(self).ts, mid, self.ts);
                        lemma_advanced_trans(opened_at, before, mid);
                        lemma_advanced_trans(opened_at, mid, self.ts);
                    }
                    if !more {
                        break;
                    }
                }
                match failed {
                    Some(e) => ASTBlock::Invalid(e),
                    None => {
                        let ghost before = self.ts;
                        let closed = self.group_close(&rules);
                        proof {
                            lemma_advanced_trans(old(self).ts, before, self.ts);
                        }
                        match closed {
                            Ok(()) => ASTBlock::Block { items: xs },
                            Err(e) => ASTBlock::Invalid(e),
                        }
                    }
                }
            },
        };
        self.span(loc1, value)
    }

    pub fn parse_statement(&mut self) -> (r: Located<ASTStatement>)
        requires
            old(self).ts.wf(),
        ensures
            advanced(old(self).ts, final(self).ts),
        decreases old(self).ts.rest().len(), 9nat,
    {
        let loc1 = self.ts.location();
        proof {
            lemma_advanced_refl(old(self).ts);
        }
        let value = if self.eat_keyword("for") {
            let ghost s1 = self.ts;
            let arg = self.parse_plain_query_expression((Token::Grouping(Grouping::LBrace), "start of block"));
            let ghost s2 = self.ts;
            let body = self.parse_block();
            proof {
                lemma_advanced_trans(old(self).ts, s1, s2);
                lemma_advanced_trans(old(self).ts, s2, self.ts);
            }
            ASTStatement::For { arg, body }
        } else if self.eat_keyword("if") {
            let ghost s1 = self.ts;
            let arg = self.parse_plain_query_expression((Token::Grouping(Grouping::LBrace), "start of block"));
            let ghost s2 = self.ts;
            let body = self.parse_block();
            let ghost s3 = self.ts;
            proof {
                lemma_advanced_trans(old(self).ts, s1, s2);
                lemma_advanced_trans(old(self).ts, s2, s3);
            }
            if self.eat_keyword("else") {
                let ghost s4 = self.ts;
                let else_ = self.parse_block();
                proof {
                    lemma_advanced_trans(old(self).ts, s3, s4);
                    lemma_advanced_trans(old(self).ts, s4, self.ts);
                }
                ASTStatement::If { arg, body, else_: Some(else_) }
            } else {
                ASTStatement::If { arg, body, else_: None }
            }
        } else if self.eat_keyword("return") {
            let ghost s1 = self.ts;
            let arg = self.parse_expression();
            proof {
                lemma_advanced_trans(old(self).ts, s1, self.ts);
            }
            ASTStatement::Return { arg }
        } else if self.ts.peek_identifier() {
            let call = self.parse_call();
            ASTStatement::Call { call }
        } else if self.ts.peek_variable() || self.ts.peek_eq(&Token::Grouping(Grouping::LBrack)) {
            let variable = self.parse_assign_target();
            let ghost s1 = self.ts;
            if self.eat(&Token::Operator(Operator::OAssign)) {
                let ghost s2 = self.ts;
                let arg = self.parse_expression();
                proof {
                    lemma_advanced_trans(old(self).ts, s1, s2);
                    lemma_advanced_trans(old(self).ts, s2, self.ts);
                }
                ASTStatement::Assign { first: false, variable, arg }
            } else if self.eat(&Token::Operator(Operator::OAssignNew)) {
                let ghost s2 = self.ts;
                let arg = self.parse_expression();
                proof {
                    lemma_advanced_trans(old(self).ts, s1, s2);
                    lemma_advanced_trans(old(self).ts, s2, self.ts);
                }
                ASTStatement::Assign { first: true, variable, arg }
            } else {
                ASTStatement::Invalid(kpe("expected := or = for an assignment"))
            }
        } else {
            self.skip_to_next_statement();
            proof {
                lemma_stepped_advanced(old(self).ts, self.ts);
            }
            ASTStatement::Invalid(kpe("expected statement"))
        };
        self.span(loc1, value)
    }

    // == query expressions ==

    fn parse_block_query_expression(&mut self) -> (r: Located<ASTQueryExpression>)
        requires
            old(self).ts.wf(),
        ensures
            advanced(old(self).ts, final(self).ts),
        decreases old(self).ts.rest().len(), 7nat,
    {
        let loc1 = self.ts.location();
        let mut rules = DelimitedMany::braces_basis();
        rules.separator = Some(Token::Grouping(Grouping::Comma));
        proof {
            lemma_advanced_refl(old(self).ts);
        }
        let opened = self.group_open(&rules);
        let value = match opened {
            None => {
                let x = self.parse_query_goal();
                ASTQueryExpression::QExpression { items: vec![x] }
            },
            Some(Err(e)) => ASTQueryExpression::Invalid(e),
            Some(Ok(())) => {
                let mut xs: Vec<Located<ASTQueryGoal>> = Vec::new();
                let mut failed: Option<KupoParseError> = None;
                let ghost opened_at = self.ts;
                proof {
                    lemma_advanced_refl(opened_at);
                }
                loop
                    invariant
                        advanced(old(self).ts, self.ts),
                        advanced(opened_at, self.ts),
                        opened_at.rest().len() < old(self).ts.rest().len(),
                    decreases self.ts.rest().len(),
                {
                    if self.ts.peek_eq(&rules.rhs.0) {
                        break;
                    }
                    if self.ts.peek_eq(&Token::EOF) {
                        failed = Some(kpe("found EOF before end of group"));
                        break;
                    }
                    let ghost before = self.ts;
                    xs.push(self.parse_query_goal());
                    let ghost mid = self.ts;
                    let more = self.eat(&Token::Grouping(Grouping::Comma));
                    proof {
                        lemma_advanced_trans(old(self).ts, before, mid);
                        lemma_advanced_trans(old(self).ts, mid, self.ts);
                        lemma_advanced_trans(opened_at, before, mid);
                        lemma_advanced_trans(opened_at, mid, self.ts);
                    }
                    if !more {
                        break;
                    }
                }
                match failed {
                    Some(e) => ASTQueryExpression::Invalid(e),
                    None => {
                        let ghost before = self.ts;
                        let closed = self.group_close(&rules);
                        proof {
                            lemma_advanced_trans(old(self).ts, before, self.ts);
                        }
                        match closed {
                            Ok(()) => ASTQueryExpression::QExpression { items: xs },
                            Err(e) => ASTQueryExpression::Invalid(e),
                        }
                    }
                }
            },
        };
        self.span(loc1, value)
    }

    fn parse_plain_query_expression(&mut self, rhs: (Token, &'static str)) -> (r: Located<ASTQueryExpression>)
        requires
            old(self).ts.wf(),
        ensures
            advanced(old(self).ts, final(self).ts),
        decreases old(self).ts.rest().len(), 7nat,
    {
        let loc1 = self.ts.location();
        let mut rules = DelimitedMany::braces_basis();
        rules.separator = Some(Token::Grouping(Grouping::Comma));
        rules.lhs = None;
        rules.rhs = rhs;
        rules.consume_rhs = false;
        proof {
            lemma_advanced_refl(old(self).ts);
        }
        let opened = self.group_open(&rules);
        let value = match opened {
            None => {
                let x = self.parse_query_goal();
                ASTQueryExpression::QExpression { items: vec![x] }
            },
            Some(Err(e)) => ASTQueryExpression::Invalid(e),
            Some(Ok(())) => {
                let mut xs: Vec<Located<ASTQueryGoal>> = Vec::new();
                let mut failed: Option<KupoParseError> = None;
                let ghost opened_at = self.ts;
                proof {
                    lemma_advanced_refl(opened_at);
                }
                loop
                    invariant
                        advanced(old(self).ts, self.ts),
                        advanced(opened_at, self.ts),
                        opened_at == old(self).ts,
                    decreases self.ts.rest().len(),
                {
                    if self.ts.peek_eq(&rules.rhs.0) {
                        break;
                    }
                    if self.ts.peek_eq(&Token::EOF) {
                        failed = Some(kpe("found EOF before end of group"));
                        break;
                    }
                    let ghost before = self.ts;
                    xs.push(self.parse_query_goal());
                    let ghost mid = self.ts;
                    let more = self.eat(&Token::Grouping(Grouping::Comma));
                    proof {
                        lemma_advanced_trans(old(self).ts, before, mid);
                        lemma_advanced_trans(old(self).ts, mid, self.ts);
                        lemma_advanced_trans(opened_at, before, mid);
                        lemma_advanced_trans(opened_at, mid, self.ts);
                    }
                    if !more {
                        break;
                    }
                }
                match failed {
                    Some(e) => ASTQueryExpression::Invalid(e),
                    None => {
                        let ghost before = self.ts;
                        let closed = self.group_close(&rules);
                        proof {
                            lemma_advanced_trans(old(self).ts, before, self.ts);
                        }
                        match closed {
                            Ok(()) => ASTQueryExpression::QExpression { items: xs },
                            Err(e) => ASTQueryExpression::Invalid(e),
                        }
                    }
                }
            },
        };
        self.span(loc1, value)
    }

    fn parse_query_goal(&mut self) -> (r: Located<ASTQueryGoal>)
        requires
            old(self).ts.wf(),
        ensures
            advanced(old(self).ts, final(self).ts),
        decreases old(self).ts.rest().len(), 6nat,
    {
        let args = self.parse_assign_target();
        let ghost mid = self.ts;
        let source = self.parse_goal_source();
        proof {
            lemma_advanced_trans(old(self).ts, mid, self.ts);
        }
        args.location().merge_l(&source).replace(ASTQueryGoal::Goal { args, source })
    }

    fn parse_goal_source(&mut self) -> (r: Located<ASTQueryGoalSource>)
        requires
            old(self).ts.wf(),
        ensures
            advanced(old(self).ts, final(self).ts),
        decreases old(self).ts.rest().len(), 4nat,
    {
        let loc1 = self.ts.location();
        proof {
            lemma_advanced_refl(old(self).ts);
        }
        let value = if self.eat_keyword("in") {
            let ghost s1 = self.ts;
            let tbl = self.ts.pop_identifier();
            proof {
                if tbl is Some {
                    lemma_stepped_advanced(s1, self.ts);
                    lemma_advanced_trans(old(self).ts, s1, self.ts);
                }
            }
            match tbl {
                Some(from) => ASTQueryGoalSource::In { from },
                None => ASTQueryGoalSource::Invalid(kpe("expected table after 'in'")),
            }
        } else if self.eat(&Token::Operator(Operator::OAssignNew)) {
            let ghost s1 = self.ts;
            let expression = self.parse_expression();
            proof {
                lemma_advanced_trans(old(self).ts, s1, self.ts);
            }
            ASTQueryGoalSource::Assign { expression }
        } else if self.eat(&Token::Operator(Operator::OAssign)) {
            let ghost s1 = self.ts;
            self.parse_expression();
            proof {
                lemma_advanced_trans(old(self).ts, s1, self.ts);
            }
            ASTQueryGoalSource::Invalid(kpe("you can't use = in a query expression, only :="))
        } else {
            self.ts.pop_any();
            proof {
                lemma_stepped_advanced(old(self).ts, self.ts);
            }
            ASTQueryGoalSource::Invalid(kpe("unrecognized goal source: expected in or :="))
        };
        self.span(loc1, value)
    }

    // == expressions ==

    /// Parses operands joined by binary operators, placed by precedence.
    pub fn parse_expression(&mut self) -> (r: Located<ASTExpression>)
        requires
            old(self).ts.wf(),
        ensures
            advanced(old(self).ts, final(self).ts),
        decreases old(self).ts.rest().len(), 4nat,
    {
        let mut leaf = self.parse_leaf_expression();
        proof {
            lemma_advanced_refl(self.ts);
        }
        loop
            invariant
                advanced(old(self).ts, self.ts),
            decreases self.ts.rest().len(),
        {
            let ghost s0 = self.ts;
            let op = if self.eat(&Token::Operator(Operator::OAdd)) {
                ASTBinOp::Add
            } else if self.eat(&Token::Operator(Operator::OSubtract)) {
                ASTBinOp::Subtract
            } else if self.eat(&Token::Operator(Operator::OMultiply)) {
                ASTBinOp::Multiply
            } else if self.eat(&Token::Operator(Operator::ODivide)) {
                ASTBinOp::Divide
            } else {
                return leaf;
            };
            let ghost s1 = self.ts;
            let leaf2 = self.parse_leaf_expression();
            proof {
                lemma_advanced_trans(old(self).ts, s0, s1);
                lemma_advanced_trans(old(self).ts, s1, self.ts);
            }
            leaf = leaf.add_using_precedence(op, leaf2);
        }
    }

    /// Parses a literal, a call, or a signed operand.
    pub fn parse_leaf_expression(&mut self) -> (r: Located<ASTExpression>)
        requires
            old(self).ts.wf(),
        ensures
            advanced(old(self).ts, final(self).ts),
        decreases old(self).ts.rest().len(), 3nat,
    {
        let loc1 = self.ts.location();
        proof {
            lemma_advanced_refl(old(self).ts);
        }
        let value = if self.eat(&Token::Operator(Operator::OSubtract)) {
            let ghost s1 = self.ts;
            let arg = self.parse_leaf_expression();
            proof {
                lemma_advanced_trans(old(self).ts, s1, self.ts);
            }
            ASTExpression::UOp { op: ASTUOp::Negate, arg: Box::new(arg) }
        } else if self.eat(&Token::Operator(Operator::OAdd)) {
            let ghost s1 = self.ts;
            let arg = self.parse_leaf_expression();
            proof {
                lemma_advanced_trans(old(self).ts, s1, self.ts);
            }
            ASTExpression::UOp { op: ASTUOp::Plus, arg: Box::new(arg) }
        } else {
            let literal = match &self.ts.peek_any().value {
                Token::Integer(i) => Some(ASTExpression::IntegerLiteral { it: *i }),
                Token::StringLiteral(st) => Some(ASTExpression::StringLiteral { it: st.clone() }),
                _ => None,
            };
            match literal {
                Some(l) => {
                    self.ts.pop_any();
                    proof {
                        lemma_stepped_advanced(old(self).ts, self.ts);
                    }
                    l
                },
                None => if self.ts.peek_identifier() {
                    let call = self.parse_call();
                    ASTExpression::Call { call }
                } else {
                    self.skip_to_end_of_expression();
                    proof {
                        lemma_stepped_advanced(old(self).ts, self.ts);
                    }
                    ASTExpression::Invalid(kpe("expected expression"))
                },
            }
        };
        self.span(loc1, value)
    }

    fn parse_assign_target(&mut self) -> (r: Located<ASTAssignTarget>)
        requires
            old(self).ts.wf(),
        ensures
            advanced(old(self).ts, final(self).ts),
        decreases old(self).ts.rest().len(), 5nat,
    {
        let loc1 = self.ts.location();
        let mut rules = DelimitedMany::brackets_basis();
        rules.can_be_bare = true;
        rules.separator = Some(Token::Grouping(Grouping::Comma));
        proof {
            lemma_advanced_refl(old(self).ts);
        }
        let opened = self.group_open(&rules);
        let value = match opened {
            None => {
                let x = self.parse_expression();
                ASTAssignTarget::Target { args: vec![x] }
            },
            Some(Err(e)) => ASTAssignTarget::Invalid(e),
            Some(Ok(())) => {
                let mut xs: Vec<Located<ASTExpression>> = Vec::new();
                let mut failed: Option<KupoParseError> = None;
                let ghost opened_at = self.ts;
                proof {
                    lemma_advanced_refl(opened_at);
                }
                loop
                    invariant
                        advanced(old(self).ts, self.ts),
                        advanced(opened_at, self.ts),
                        opened_at.rest().len() < old(self).ts.rest().len(),
                    decreases self.ts.rest().len(),
                {
                    if self.ts.peek_eq(&rules.rhs.0) {
                        break;
                    }
                    if self.ts.peek_eq(&Token::EOF) {
                        failed = Some(kpe("found EOF before end of group"));
                        break;
                    }
                    let ghost before = self.ts;
                    xs.push(self.parse_expression());
                    let ghost mid = self.ts;
                    let more = self.eat(&Token::Grouping(Grouping::Comma));
                    proof {
                        lemma_advanced_trans(old(self).ts, before, mid);
                        lemma_advanced_trans(old(self).ts, mid, self.ts);
                        lemma_advanced_trans(opened_at, before, mid);
                        lemma_advanced_trans(opened_at, mid, self.ts);
                    }
                    if !more {
                        break;
                    }
                }
                match failed {
                    Some(e) => ASTAssignTarget::Invalid(e),
                    None => {
                        let ghost before = self.ts;
                        let closed = self.group_close(&rules);
                        proof {
                            lemma_advanced_trans(old(self).ts, before, self.ts);
                        }
                        match closed {
                            Ok(()) => ASTAssignTarget::Target { args: xs },
                            Err(e) => ASTAssignTarget::Invalid(e),
                        }
                    }
                }
            },
        };
        self.span(loc1, value)
    }

    /// Parses a call: a function name and its arguments in parentheses.
    pub fn parse_call(&mut self) -> (r: Located<ASTCall>)
        requires
            old(self).ts.wf(),
        ensures
            advanced(old(self).ts, final(self).ts),
        decreases old(self).ts.rest().len(), 2nat,
    {
        let loc1 = self.ts.location();
        let name = self.ts.pop_identifier();
        proof {
            lemma_advanced_refl(old(self).ts);
            if name is Some {
                lemma_stepped_advanced(old(self).ts, self.ts);
            }
        }
        let name = match name {
            Some(n) => n,
            None => {
                return self.span(loc1, ASTCall::Invalid(kpe("expected function name for call")));
            },
        };
        let ghost s1 = self.ts;
        let args = self.parse_call_args();
        proof {
            lemma_advanced_trans(old(self).ts, s1, self.ts);
        }
        self.span(loc1, ASTCall::Call { name, args })
    }

    fn parse_call_args(&mut self) -> (r: Located<ASTCallArgs>)
        requires
            old(self).ts.wf(),
        ensures
            advanced(old(self).ts, final(self).ts),
        decreases old(self).ts.rest().len(), 1nat,
    {
        let loc1 = self.ts.location();
        let mut rules = DelimitedMany::parens_basis();
        rules.separator = Some(Token::Grouping(Grouping::Comma));
        proof {
            lemma_advanced_refl(old(self).ts);
        }
        let opened = self.group_open(&rules);
        let value = match opened {
            None => {
                let x = self.parse_expression();
                ASTCallArgs::Args { args: vec![x] }
            },
            Some(Err(e)) => ASTCallArgs::Invalid(e),
            Some(Ok(())) => {
                let mut xs: Vec<Located<ASTExpression>> = Vec::new();
                let mut failed: Option<KupoParseError> = None;
                let ghost opened_at = self.ts;
                proof {
                    lemma_advanced_refl(opened_at);
                }
                loop
                    invariant
                        advanced(old(self).ts, self.ts),
                        advanced(opened_at, self.ts),
                        opened_at.rest().len() < old(self).ts.rest().len(),
                    decreases self.ts.rest().len(),
                {
                    if self.ts.peek_eq(&rules.rhs.0) {
                        break;
                    }
                    if self.ts.peek_eq(&Token::EOF) {
                        failed = Some(kpe("found EOF before end of group"));
                        break;
                    }
                    let ghost before = self.ts;
                    xs.push(self.parse_expression());
                    let ghost mid = self.ts;
                    let more = self.eat(&Token::Grouping(Grouping::Comma));
                    proof {
                        lemma_advanced_trans(old(self).ts, before, mid);
                        lemma_advanced_trans(old(self).ts, mid, self.ts);
                        lemma_advanced_trans(opened_at, before, mid);
                        lemma_advanced_trans(opened_at, mid, self.ts);
                    }
                    if !more {
                        break;
                    }
                }
                match failed {
                    Some(e) => ASTCallArgs::Invalid(e),
                    None => {
                        let ghost before = self.ts;
                        let closed = self.group_close(&rules);
                        proof {
                            lemma_advanced_trans(old(self).ts, before, self.ts);
                        }
                        match closed {
                            Ok(()) => ASTCallArgs::Args { args: xs },
                            Err(e) => ASTCallArgs::Invalid(e),
                        }
                    }
                }
            },
        };
        self.span(loc1, value)
    }
}

/// Parses a module from its tokens and the location of the end of the text.
pub fn parse_module(ts: &[Located<Token>], eof: Located<()>) -> (r: Located<ASTModule>) {
    let mut p = Parser { ts: TStream::new(ts, eof) };
    p.parse_module()
}

} // verus!
