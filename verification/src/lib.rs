//! An LL(1) parser generator driven by EBNF grammar descriptions.
//!
//! A textual grammar is tokenised ([`tokeniser`]), parsed into an EBNF tree
//! ([`parser`]), normalised into a flat production list ([`grammar`]), and
//! turned into an LL(1) parse table and a predictive parser
//! ([`parser_generator`]).

pub mod grammar;
pub mod parser;
pub mod parser_generator;
mod sets;
mod strutil;
pub mod tokeniser;
