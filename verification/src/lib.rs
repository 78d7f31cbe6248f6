//! A reusable engine for lexical scanners and backtracking recursive-descent
//! parsers.
//!
//! Rules are plain data: the scanner in [`lexer`] and the parser in [`parser`]
//! interpret ordered rule lists over a backtrackable cursor ([`flext::Flext`]),
//! which exists once over characters ([`lext::Lext`]) and once over tokens
//! ([`parxt::Parxt`]). Both report what they cannot match as diagnostics
//! ([`diagnostic::CompileError`]).
//!
//! Each function states what it returns over a mathematical model of its
//! inputs, and is proved against that statement. Two std functions are taken
//! on trust: `Rc::clone` and `String::push`.

pub mod cursor;
pub mod diagnostic;
pub mod flext;
pub mod lexer;
pub mod lext;
pub mod order;
pub mod parser;
pub mod parxt;
pub mod token_node;
