//! A minimal front end for a Prolog-like fact language: a tokenizer, a
//! recursive-descent parser for facts, rules and boolean bodies, and an
//! in-memory fact store answering queries by shallow pattern matching.

pub mod ast;
pub mod charclass;
pub mod goals;
pub mod parser;
pub mod roundtrip;
pub mod interpreter;
pub mod lexer;
