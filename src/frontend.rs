use vstd::prelude::*;

use crate::ast::Module;
use crate::cstream::utf8_len;
use crate::lexer::lex;
use crate::located::Located;
use crate::parser;
use crate::simp::Errors;
use crate::simplify::{module_errors, simplify_module};

verus! {

/// Reads a module from source text: lexes it, parses the tokens, and simplifies the
/// parse tree. Fails with every parse error, in source order.
pub fn parse_module(s: &str) -> (r: Result<Located<Module>, Errors>)
    requires
        utf8_len(s@) <= usize::MAX,
    ensures
        r matches Err(e) ==> e@.len() > 0,
{
    let (ts, eof) = lex(s);
    let internal = parser::parse_module(ts.as_slice(), eof);
    let ghost tree = internal;
    let r = simplify_module(internal);
    proof {
        if r is Err {
            assert(module_errors(tree).len() > 0);
        }
    }
    r
}

} // verus!
