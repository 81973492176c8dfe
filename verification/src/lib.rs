//! A lexer generator: regular expressions are parsed into an AST, compiled
//! into Thompson NFAs, combined by subset construction into a single DFA
//! whose accepting states remember the winning rule, and interpreted by a
//! maximal-munch scanner that tracks line and column positions.

pub mod dfa;
pub mod laws;
pub mod lexer_generator;
pub mod nfa;
pub mod regex_parser;
pub mod spec_parser;
