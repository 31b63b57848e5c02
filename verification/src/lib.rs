//! A small, pure, lazily evaluated expression language that generates
//! JSON-like data.
//!
//! The library is the evaluation engine: interned names ([`symbol`]),
//! persistent environments and the evaluator ([`eval`]), runtime values,
//! memoizing thunks and structural equality ([`value`]), and the JSON form
//! of a value ([`json`]). What evaluation means is written down as
//! mathematics in [`semantics`]; the executable code is proved to compute
//! exactly that, and [`laws`], [`soundness`] and [`budget`] prove what
//! follows from it.
//! A lexer for the source text is in [`lexer`].

pub mod ast;
pub mod budget;
pub mod eval;
pub mod json;
pub mod laws;
pub mod lexer;
pub mod number;
pub mod order;
pub mod persistent;
pub mod semantics;
pub mod soundness;
pub mod symbol;
pub mod token;
pub mod types;
pub mod value;
