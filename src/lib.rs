// Lowering of a variable-level procedure description to register-addressed bytecode:
// on-the-fly SSA construction, join-block insertion and placeholder elimination.

// -- the IR store and its lowering pipeline --
pub mod instruction;
pub mod ssa;
pub mod error;
pub mod cfg;
pub mod needs;
pub mod phantoms;
pub mod passes;
pub mod propagate;
pub mod codegen;
pub mod lower;

// -- the front end that feeds it --
pub mod located;
pub mod token;
pub mod cstream;
pub mod lexer;
pub mod tstream;
pub mod internal_ast;
pub mod parser;
pub mod ast;
pub mod simp;
pub mod simplify;
pub mod frontend;
