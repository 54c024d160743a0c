use vstd::prelude::*;
use vstd::string::*;

use crate::cstream::{lemma_offset_grows, push_char, utf8_len, CStream};
use crate::located::Located;
use crate::token::{Grouping, Invalid, Operator, Token};
use crate::tstream::same_text;

verus! {

broadcast use vstd::seq::Seq::lemma_filter_push;

const VARIABLE: &'static str = "\\A@[a-zA-Z][_a-zA-Z0-9]*";

const IDENTIFIER: &'static str = "\\A[a-zA-Z][_a-zA-Z0-9]*";

const INTEGER: &'static str = "\\A([0-9][0-9]*|0x[0-9a-fA-F][0-9a-fA-F_]*|0o[0-7][0-7]*|0d[0-9][0-9]*|0b[01][01_]*)\\b";

const CHAR_CODE: &'static str = "\\A(x[0-9a-fA-F]{2}|u[0-9a-fA-F]{4}|U[0-9a-fA-F]{8})";

/// Value of `c` as a digit in any radix up to 16.
pub open spec fn digit_value(c: char) -> Option<nat> {
    if '0' <= c && c <= '9' {
        Some((c as u32 - '0' as u32) as nat)
    } else if 'a' <= c && c <= 'f' {
        Some((c as u32 - 'a' as u32 + 10) as nat)
    } else if 'A' <= c && c <= 'F' {
        Some((c as u32 - 'A' as u32 + 10) as nat)
    } else {
        None
    }
}

pub open spec fn is_digit_in(c: char, radix: nat) -> bool {
    digit_value(c) matches Some(d) && d < radix
}

/// The number that the digits `s` write in `radix`.
pub open spec fn digits_value(s: Seq<char>, radix: nat) -> nat
    decreases s.len(),
{
    if s.len() == 0 {
        0
    } else {
        digits_value(s.drop_last(), radix) * radix + match digit_value(s.last()) {
            Some(d) => d,
            None => 0,
        }
    }
}

/// Why a run of digits is not a `u64`.
#[derive(Clone, Copy, Debug, PartialEq, Eq, Structural)]
pub enum IntError {
    Empty,
    InvalidDigit,
    Overflow,
}

impl IntError {
    /// How the standard library words this error.
    pub fn describe(&self) -> (r: String) {
        match self {
            IntError::Empty => "cannot parse integer from empty string".to_string(),
            IntError::InvalidDigit => "invalid digit found in string".to_string(),
            IntError::Overflow => "number too large to fit in target type".to_string(),
        }
    }
}

proof fn lemma_digits_value_grows(s: Seq<char>, radix: nat, i: int)
    requires
        radix >= 1,
        0 <= i <= s.len(),
    ensures
        digits_value(s.take(i), radix) <= digits_value(s, radix),
    decreases s.len() - i,
{
    if i < s.len() {
        lemma_digits_value_grows(s, radix, i + 1);
        let t = s.take(i + 1);
        assert(t.drop_last() =~= s.take(i));
        let v = digits_value(s.take(i), radix);
        assert(v * radix >= v) by (nonlinear_arith)
            requires
                radix >= 1,
        ;
        assert(digits_value(t, radix) >= v);
    }
    assert(s.take(s.len() as int) =~= s);
}

/// Reads `digits` as a number in `radix` (2 to 16).
pub fn parse_radix(digits: &Vec<char>, radix: u64) -> (r: Result<u64, IntError>)
    requires
        2 <= radix <= 16,
    ensures
        r is Ok <==> digits@.len() > 0 && (forall|i: int| 0 <= i < digits@.len() ==> is_digit_in(#[trigger] digits@[i], radix as nat))
            && digits_value(digits@, radix as nat) <= u64::MAX,
        r matches Ok(v) ==> v == digits_value(digits@, radix as nat),
        r == Err::<u64, IntError>(IntError::Empty) <==> digits@.len() == 0,
{
    if digits.len() == 0 {
        return Err(IntError::Empty);
    }
    let mut value: u64 = 0;
    let mut i: usize = 0;
    while i < digits.len()
        invariant
            2 <= radix <= 16,
            digits@.len() > 0,
            i <= digits@.len(),
            forall|j: int| 0 <= j < i ==> is_digit_in(#[trigger] digits@[j], radix as nat),
            value == digits_value(digits@.take(i as int), radix as nat),
        decreases digits@.len() - i,
    {
        let c = digits[i];
        let d: u64 = if '0' <= c && c <= '9' {
            (c as u32 - '0' as u32) as u64
        } else if 'a' <= c && c <= 'f' {
            (c as u32 - 'a' as u32 + 10) as u64
        } else if 'A' <= c && c <= 'F' {
            (c as u32 - 'A' as u32 + 10) as u64
        } else {
            16
        };
        if d >= radix {
            assert(!is_digit_in(digits@[i as int], radix as nat));
            return Err(IntError::InvalidDigit);
        }
        assert(digits@.take(i + 1).drop_last() =~= digits@.take(i as int));
        let next = match value.checked_mul(radix) {
            Some(m) => m.checked_add(d),
            None => None,
        };
        match next {
            Some(v) => {
                value = v;
            },
            None => {
                proof {
                    assert(digits_value(digits@.take(i + 1), radix as nat) > u64::MAX);
                    lemma_digits_value_grows(digits@, radix as nat, i + 1);
                }
                return Err(IntError::Overflow);
            },
        }
        i = i + 1;
    }
    assert(digits@.take(digits@.len() as int) =~= digits@);
    Ok(value)
}

/// The decimal digits of `n`.
pub open spec fn decimal(n: nat) -> Seq<char>
    decreases n,
{
    if n < 10 {
        seq![(n + '0' as nat) as char]
    } else {
        decimal(n / 10).push(((n % 10) + '0' as nat) as char)
    }
}

/// Writes `n` in decimal.
pub fn decimal_text(n: u64) -> (r: String)
    ensures
        r@ == decimal(n as nat),
    decreases n,
{
    if n < 10 {
        let mut s = String::new();
        push_char(&mut s, ((n as u8) + 48u8) as char);
        assert(s@ =~= decimal(n as nat));
        s
    } else {
        let mut s = decimal_text(n / 10);
        push_char(&mut s, (((n % 10) as u8) + 48u8) as char);
        s
    }
}

/// The words that lex as keywords.
pub open spec fn is_keyword_text(s: Seq<char>) -> bool {
    s == "def"@ || s == "else"@ || s == "fn"@ || s == "for"@ || s == "if"@ || s == "in"@ || s == "or"@
        || s == "return"@ || s == "view"@
}

pub fn is_keyword(s: &str) -> (r: bool)
    ensures
        r == is_keyword_text(s@),
{
    same_text(s, "def") || same_text(s, "else") || same_text(s, "fn") || same_text(s, "for") || same_text(s, "if")
        || same_text(s, "in") || same_text(s, "or") || same_text(s, "return") || same_text(s, "view")
}

/// Relies on char::from_u32: a char exactly for Unicode scalar values.
#[verifier::external_body]
fn char_from_u32(code: u32) -> (r: Option<char>)
    ensures
        r is Some <==> (code < 0xD800 || (0xDFFF < code && code <= 0x10FFFF)),
        r matches Some(c) ==> c as u32 == code,
{
    char::from_u32(code)
}

/// A string made of `head` and then `tail`.
fn joined(head: &str, tail: &str) -> (r: String)
    ensures
        r@ == head@ + tail@,
{
    let s = head.to_string();
    s.concat(tail)
}

/// The text without its underscores.
fn without_underscores(s: &String) -> (r: Vec<char>)
    ensures
        r@ == s@.filter(|c: char| c != '_'),
{
    let n = s.as_str().unicode_len();
    let mut r: Vec<char> = Vec::new();
    let mut i: usize = 0;
    while i < n
        invariant
            n == s@.len(),
            i <= n,
            r@ == s@.take(i as int).filter(|c: char| c != '_'),
        decreases n - i,
    {
        let c = s.as_str().get_char(i);
        assert(s@.take(i + 1) =~= s@.take(i as int).push(c));
        if c != '_' {
            r.push(c);
        }
        i = i + 1;
    }
    assert(s@.take(n as int) =~= s@);
    r
}

/// `chars` from position `from` on.
fn tail_of(chars: &Vec<char>, from: usize) -> (r: Vec<char>)
    requires
        from <= chars@.len(),
    ensures
        r@ == chars@.skip(from as int),
{
    let mut r: Vec<char> = Vec::new();
    let mut i = from;
    while i < chars.len()
        invariant
            from <= i <= chars@.len(),
            r@ == chars@.subrange(from as int, i as int),
        decreases chars@.len() - i,
    {
        r.push(chars[i]);
        assert(chars@.subrange(from as int, i + 1) =~= chars@.subrange(from as int, i as int).push(chars@[i as int]));
        i = i + 1;
    }
    assert(chars@.subrange(from as int, chars@.len() as int) =~= chars@.skip(from as int));
    r
}

fn starts_with2(chars: &Vec<char>, a: char, b: char) -> (r: bool)
    ensures
        r == (chars@.len() >= 2 && chars@[0] == a && chars@[1] == b),
{
    chars.len() >= 2 && chars[0] == a && chars[1] == b
}

/// The lexer's state: the characters not yet read, and the tokens so far.
pub struct Lexer {
    pub cs: CStream,
    pub tokens: Vec<Located<Token>>,
}

/// One lexing step from `a` to `b`: when it reports progress, it consumed at least one
/// char and added at most one token, spanning exactly what it consumed; otherwise it
/// changed nothing.
pub open spec fn lex_step(a: Lexer, b: Lexer, progressed: bool) -> bool {
    &&& b.cs.wf()
    &&& b.cs.text() == a.cs.text()
    &&& progressed ==> b.cs.pos() > a.cs.pos() && (b.tokens@ == a.tokens@ || (b.tokens@.len() == a.tokens@.len() + 1
        && b.tokens@.drop_last() == a.tokens@ && b.tokens@.last().start as nat == a.cs.offset_spec()
        && b.tokens@.last().end as nat == b.cs.offset_spec()))
    &&& !progressed ==> b.cs.pos() == a.cs.pos() && b.tokens@ == a.tokens@
}

/// Tokens in order, each spanning at least one byte, all before byte `end`.
pub open spec fn spans_ordered(tokens: Seq<Located<Token>>, end: nat) -> bool {
    &&& forall|i: int| 0 <= i < tokens.len() ==> (#[trigger] tokens[i]).start < tokens[i].end && tokens[i].end <= end
    &&& forall|i: int| 0 <= i < tokens.len() - 1 ==> (#[trigger] tokens[i]).end <= tokens[i + 1].start
}

impl Lexer {
    fn push_token(&mut self, start: usize, value: Token)
        requires
            old(self).cs.wf(),
        ensures
            final(self).cs == old(self).cs,
            final(self).tokens@.len() == old(self).tokens@.len() + 1,
            final(self).tokens@.drop_last() == old(self).tokens@,
            final(self).tokens@.last().value == value,
            final(self).tokens@.last().start == start,
            final(self).tokens@.last().end as nat == old(self).cs.offset_spec(),
    {
        let end = self.cs.offset();
        self.tokens.push(Located { start, end, value });
        assert(self.tokens@.drop_last() =~= old(self).tokens@);
    }

    fn whitespace(&mut self) -> (r: bool)
        requires
            old(self).cs.wf(),
        ensures
            lex_step(*old(self), *final(self), r),
    {
        let mut any = false;
        while self.cs.pop_ws()
            invariant
                self.cs.wf(),
                self.cs.text() == old(self).cs.text(),
                self.tokens == old(self).tokens,
                any ==> self.cs.pos() > old(self).cs.pos(),
                !any ==> self.cs.pos() == old(self).cs.pos(),
            decreases self.cs.text().len() - self.cs.pos(),
        {
            proof {
                crate::cstream::lemma_pos_bound(self.cs);
            }
            any = true;
        }
        any
    }

    fn singleline_comment(&mut self) -> (r: bool)
        requires
            old(self).cs.wf(),
        ensures
            lex_step(*old(self), *final(self), r),
    {
        if !self.cs.pop_char('#') {
            return false;
        }
        loop
            invariant
                self.cs.wf(),
                self.cs.text() == old(self).cs.text(),
                self.tokens == old(self).tokens,
                self.cs.pos() > old(self).cs.pos(),
            decreases self.cs.text().len() - self.cs.pos(),
        {
            let popped = self.cs.pop_any();
            proof {
                crate::cstream::lemma_pos_bound(self.cs);
            }
            match popped {
                Some(c) => {
                    if c == '\n' {
                        break;
                    }
                },
                None => {
                    break;
                },
            }
        }
        true
    }

    fn variable(&mut self) -> (r: bool)
        requires
            old(self).cs.wf(),
        ensures
            lex_step(*old(self), *final(self), r),
    {
        let start = self.cs.offset();
        match self.cs.pop_regex(VARIABLE) {
            Some(name) => {
                proof {
                    lemma_offset_grows(old(self).cs, self.cs);
                }
                self.push_token(start, Token::Variable(name));
                true
            },
            None => false,
        }
    }

    fn identifier(&mut self) -> (r: bool)
        requires
            old(self).cs.wf(),
        ensures
            lex_step(*old(self), *final(self), r),
    {
        let start = self.cs.offset();
        match self.cs.pop_regex(IDENTIFIER) {
            Some(name) => {
                proof {
                    lemma_offset_grows(old(self).cs, self.cs);
                }
                let t = if is_keyword(name.as_str()) {
                    Token::Keyword(name)
                } else {
                    Token::Identifier(name)
                };
                self.push_token(start, t);
                true
            },
            None => false,
        }
    }

    fn integer(&mut self) -> (r: bool)
        requires
            old(self).cs.wf(),
        ensures
            lex_step(*old(self), *final(self), r),
    {
        let start = self.cs.offset();
        match self.cs.pop_regex(INTEGER) {
            Some(text) => {
                proof {
                    lemma_offset_grows(old(self).cs, self.cs);
                }
                let digits = without_underscores(&text);
                let parsed = if starts_with2(&digits, '0', 'x') {
                    parse_radix(&tail_of(&digits, 2), 16)
                } else if starts_with2(&digits, '0', 'o') {
                    parse_radix(&tail_of(&digits, 2), 8)
                } else if starts_with2(&digits, '0', 'd') {
                    parse_radix(&tail_of(&digits, 2), 10)
                } else if starts_with2(&digits, '0', 'b') {
                    parse_radix(&tail_of(&digits, 2), 2)
                } else {
                    parse_radix(&digits, 10)
                };
                match parsed {
                    Ok(v) => self.push_token(start, Token::Integer(v)),
                    Err(e) => {
                        // an integer that does not fit (the pattern admits only digits)
                        let m = joined("invalid integer: ", text.as_str());
                        let m = joined(m.as_str(), " (");
                        let m = joined(m.as_str(), e.describe().as_str());
                        let m = joined(m.as_str(), ")");
                        self.push_token(start, Token::Invalid(Invalid::Integer(m)));
                    },
                }
                true
            },
            None => false,
        }
    }

    fn grouping(&mut self) -> (r: bool)
        requires
            old(self).cs.wf(),
        ensures
            lex_step(*old(self), *final(self), r),
    {
        let start = self.cs.offset();
        let g: Grouping;
        if self.cs.pop_string("(") {
            g = Grouping::LParen;
        } else if self.cs.pop_string(")") {
            g = Grouping::RParen;
        } else if self.cs.pop_string("{") {
            g = Grouping::LBrace;
        } else if self.cs.pop_string("}") {
            g = Grouping::RBrace;
        } else if self.cs.pop_string("[") {
            g = Grouping::LBrack;
        } else if self.cs.pop_string("]") {
            g = Grouping::RBrack;
        } else if self.cs.pop_string(",") {
            g = Grouping::Comma;
        } else if self.cs.pop_string(";") {
            g = Grouping::Semicolon;
        } else {
            return false;
        }
        proof {
            reveal_strlit("(");
            reveal_strlit(")");
            reveal_strlit("{");
            reveal_strlit("}");
            reveal_strlit("[");
            reveal_strlit("]");
            reveal_strlit(",");
            reveal_strlit(";");
            lemma_offset_grows(old(self).cs, self.cs);
        }
        self.push_token(start, Token::Grouping(g));
        true
    }

    fn operator(&mut self) -> (r: bool)
        requires
            old(self).cs.wf(),
        ensures
            lex_step(*old(self), *final(self), r),
    {
        let start = self.cs.offset();
        let op: Operator;
        if self.cs.pop_string("+") {
            op = Operator::OAdd;
        } else if self.cs.pop_string("-") {
            op = Operator::OSubtract;
        } else if self.cs.pop_string("*") {
            op = Operator::OMultiply;
        } else if self.cs.pop_string("/") {
            op = Operator::ODivide;
        } else if self.cs.pop_string(".") {
            op = Operator::ODot;
        } else if self.cs.pop_string(":=") {
            op = Operator::OAssignNew;
        } else {
            return false;
        }
        proof {
            reveal_strlit("+");
            reveal_strlit("-");
            reveal_strlit("*");
            reveal_strlit("/");
            reveal_strlit(".");
            reveal_strlit(":=");
            lemma_offset_grows(old(self).cs, self.cs);
        }
        self.push_token(start, Token::Operator(op));
        true
    }

    fn dq_string_literal(&mut self) -> (r: bool)
        requires
            old(self).cs.wf(),
        ensures
            lex_step(*old(self), *final(self), r),
    {
        self.string_literal('"')
    }

    fn sq_string_literal(&mut self) -> (r: bool)
        requires
            old(self).cs.wf(),
        ensures
            lex_step(*old(self), *final(self), r),
    {
        self.string_literal('\'')
    }

    /// Reads the char written by the escape code `ccode` (`x`, `u` or `U` and hex
    /// digits), or says why it cannot.
    fn char_code(ccode: &String) -> (r: Result<char, String>) {
        let chars = without_underscores(ccode);
        if chars.len() == 0 || !(chars[0] == 'x' || chars[0] == 'u' || chars[0] == 'U') {
            return Err(joined("character code didn't parse: ", ccode.as_str()));
        }
        match parse_radix(&tail_of(&chars, 1), 16) {
            Ok(code) => {
                if code > 0xFFFF_FFFF {
                    return Err(joined("character code didn't parse: ", ccode.as_str()));
                }
                match char_from_u32(code as u32) {
                    Some(c) => Ok(c),
                    None => Err(
                        joined(
                            "character code doesn't map to valid unicode character: ",
                            decimal_text(code).as_str(),
                        ),
                    ),
                }
            },
            Err(_) => Err(joined("character code didn't parse: ", ccode.as_str())),
        }
    }

    /// Reads a string literal between two `terminator` chars, with escapes. A literal
    /// cut short by a newline or the end of the text, or holding a bad escape, becomes an
    /// invalid token that tells the first fault and where it is.
    fn string_literal(&mut self, terminator: char) -> (r: bool)
        requires
            old(self).cs.wf(),
        ensures
            lex_step(*old(self), *final(self), r),
    {
        let start = self.cs.offset();
        if !self.cs.pop_char(terminator) {
            return false;
        }
        let mut s = String::new();
        let mut poison: Option<(usize, String)> = None;
        loop
            invariant
                self.cs.wf(),
                self.cs.text() == old(self).cs.text(),
                self.tokens == old(self).tokens,
                self.cs.pos() > old(self).cs.pos(),
            decreases self.cs.text().len() - self.cs.pos(),
        {
            let mut poison_ix = self.cs.offset();
            let mbc = self.cs.pop_any();
            proof {
                crate::cstream::lemma_pos_bound(self.cs);
            }
            let c = match mbc {
                Some(c2) => c2,
                None => {
                    if poison.is_none() {
                        poison = Some((poison_ix, "EOF in string".to_string()));
                    }
                    break;
                },
            };
            if c == terminator {
                break;
            }
            if c == '\n' {
                if poison.is_none() {
                    poison = Some((poison_ix, "newline in string".to_string()));
                }
                break;
            }
            if c == '\\' {
                poison_ix = self.cs.offset();
                if self.cs.pop_char(terminator) {
                    push_char(&mut s, terminator);
                } else if self.cs.pop_char('\\') {
                    push_char(&mut s, '\\');
                } else if self.cs.pop_char('n') {
                    push_char(&mut s, '\n');
                } else if self.cs.pop_char('r') {
                    push_char(&mut s, '\r');
                } else if self.cs.pop_char('t') {
                    push_char(&mut s, '\t');
                } else if let Some(ccode) = self.cs.pop_regex(CHAR_CODE) {
                    match Self::char_code(&ccode) {
                        Ok(ch) => push_char(&mut s, ch),
                        Err(message) => {
                            if poison.is_none() {
                                poison = Some((poison_ix, message));
                            }
                        },
                    }
                } else if self.cs.pop_char('x') || self.cs.pop_char('u') || self.cs.pop_char('U') {
                    if poison.is_none() {
                        poison = Some((poison_ix, "malformatted character code escape sequence".to_string()));
                    }
                } else {
                    let message = match self.cs.pop_any() {
                        None => "EOF in escape sequence".to_string(),
                        Some(e) => {
                            let mut m = "unrecognized escape sequence: ".to_string();
                            push_char(&mut m, e);
                            m
                        },
                    };
                    if poison.is_none() {
                        poison = Some((poison_ix, message));
                    }
                }
                proof {
                    crate::cstream::lemma_pos_bound(self.cs);
                }
            } else {
                push_char(&mut s, c);
            }
        }
        proof {
            lemma_offset_grows(old(self).cs, self.cs);
        }
        match poison {
            None => self.push_token(start, Token::StringLiteral(s)),
            Some((ix, err)) => self.push_token(start, Token::Invalid(Invalid::StringLiteral(ix, err))),
        }
        true
    }

    /// Reads one token, or skips whitespace or a comment; a char that starts nothing
    /// becomes an invalid token.
    fn lex_token(&mut self)
        requires
            old(self).cs.wf(),
            old(self).cs.pos() < old(self).cs.text().len(),
        ensures
            lex_step(*old(self), *final(self), true),
    {
        if self.whitespace() {
            return;
        }
        if self.singleline_comment() {
            return;
        }
        if self.identifier() {
            return;
        }
        if self.variable() {
            return;
        }
        if self.integer() {
            return;
        }
        if self.dq_string_literal() {
            return;
        }
        if self.sq_string_literal() {
            return;
        }
        if self.grouping() {
            return;
        }
        if self.operator() {
            return;
        }
        let start = self.cs.offset();
        if let Some(c) = self.cs.pop_any() {
            proof {
                lemma_offset_grows(old(self).cs, self.cs);
            }
            self.push_token(start, Token::Invalid(Invalid::Char(c)));
        }
    }

    /// Reads the whole text into tokens.
    fn lex(self) -> (r: (Vec<Located<Token>>, Located<()>))
        requires
            self.cs.wf(),
            self.cs.pos() == 0,
            self.tokens@.len() == 0,
        ensures
            spans_ordered(r.0@, utf8_len(self.cs.text())),
            r.1.start == utf8_len(self.cs.text()),
            r.1.end == utf8_len(self.cs.text()),
    {
        let mut lx = self;
        let ghost text = lx.cs.text();
        loop
            invariant
                lx.cs.wf(),
                lx.cs.text() == text,
                spans_ordered(lx.tokens@, lx.cs.offset_spec()),
        ensures
            lx.cs.wf(),
            lx.cs.text() == text,
            lx.cs.pos() == text.len(),
            spans_ordered(lx.tokens@, lx.cs.offset_spec()),
            decreases text.len() - lx.cs.pos(),
        {
            proof {
                crate::cstream::lemma_pos_bound(lx.cs);
            }
            if !lx.cs.any() {
                break;
            }
            let ghost before = lx;
            lx.lex_token();
            proof {
                crate::cstream::lemma_pos_bound(lx.cs);
                lemma_offset_grows(before.cs, lx.cs);
                if lx.tokens@ != before.tokens@ {
                    assert(lx.tokens@.drop_last() == before.tokens@);
                    assert forall|i: int| 0 <= i < before.tokens@.len() implies lx.tokens@[i] == before.tokens@[i] by {
                        assert(lx.tokens@.drop_last()[i] == lx.tokens@[i]);
                    }
                }
            }
        }
        proof {
            crate::cstream::lemma_offset_bound(lx.cs);
            crate::cstream::lemma_pos_bound(lx.cs);
            assert(lx.cs.text().take(lx.cs.pos() as int) =~= text);
        }
        let end = lx.cs.offset();
        (lx.tokens, Located { start: end, end, value: () })
    }
}

/// Splits a source text into tokens, with the location of its end.
///
/// Tokens come in order and do not overlap; each spans at least one byte; byte offsets
/// count UTF-8 bytes.
pub fn lex(s: &str) -> (r: (Vec<Located<Token>>, Located<()>))
    requires
        utf8_len(s@) <= usize::MAX,
    ensures
        spans_ordered(r.0@, utf8_len(s@)),
        r.1.start == utf8_len(s@),
        r.1.end == utf8_len(s@),
{
    let cs = CStream::new(s);
    let tokens = Vec::new();
    Lexer { cs, tokens }.lex()
}

} // verus!
