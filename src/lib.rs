//! A front end for a reversible programming language: a lexer, its syntax
//! tree, a parser from tokens, a static checker of reversibility rules, the
//! syntactic inverse of statements with a meaning under which it undoes
//! them, validation of involutory matrices, and emission of target source.
use vstd::prelude::*;

pub mod ast;
pub mod checker;
pub mod cvt;
pub mod flip;
pub mod mat;
pub mod parser;
pub mod semantics;
pub mod token;
pub mod tokenizer;

verus! {

} // verus!
