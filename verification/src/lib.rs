//! The core of the lush shell: quote-aware lexing, parsing, expansion, aliases,
//! and the decisions that drive execution.
//!
//! Nothing in this crate touches the system. Where a decision depends on it, the
//! caller supplies a function that looks, or is told what to do and reports back.

pub mod text;
pub mod order;
pub mod word;
pub mod lexer;
pub mod lexer_laws;
pub mod ast;
pub mod parser;
pub mod parser_laws;
pub mod expand;
pub mod glob;
pub mod assign;
pub mod alias;
pub mod alias_laws;
pub mod shell;
pub mod redirect;
pub mod path;
pub mod words;
pub mod exit;
pub mod command;
pub mod pipeline;
pub mod walk;
pub mod builtin;
pub mod functions;
pub mod function_laws;
pub mod prompt;

pub use crate::assign::parse_assignment;
pub use crate::ast::{Node, Redirect, SimpleCommand};
pub use crate::expand::{expand_word, expand_word_tracked};
pub use crate::glob::glob_expand_word;
pub use crate::lexer::lex;
pub use crate::parser::parse;
pub use crate::word::{Token, Word, WordPart};
