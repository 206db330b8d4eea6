//! A parser and a typing engine for a small lambda calculus with linear
//! types.
//!
//! Every value and every type carries a qualifier: a `lin` value must be used
//! exactly once, an `un` value may be used any number of times. The crate
//! reads a program from text and assigns it a type, keeping track of the
//! linear bindings that the program has used.
//!
//! - [`ast`]: the syntax trees, and the mathematical terms they stand for.
//! - [`lex`], [`grammar`], [`parser`]: the tokens, the grammar as a function
//!   on sequences of characters, and the parser that is proved to read what
//!   the grammar says.
//! - [`scope`], [`env`]: the environment of nested scopes, as a mathematical
//!   model and as the data structure that implements it.
//! - [`rules`], [`typing`]: the typing rules as a function on terms and
//!   environments, and the functions that are proved to follow them.
//! - [`order`], [`linearity`], [`laws`]: what the rules guarantee: bindings
//!   are only ever consumed, every linear binding is used exactly once, the
//!   branches of a conditional agree, an unrestricted function captures no
//!   linear binding, an unrestricted pair holds no linear component.
//! - [`render`]: the text of a type.

pub mod ast;
pub mod render;
pub mod lex;
pub mod grammar;
pub mod parser;
pub mod scope;
pub mod env;
pub mod rules;
pub mod order;
pub mod linearity;
pub mod typing;
pub mod laws;
