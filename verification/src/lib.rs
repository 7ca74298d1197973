//! Scope-aware regex scanning of C-like source files.
//!
//! A source file is tokenized ([`lexer`]), its brace structure is turned into a tree of named
//! scopes ([`scope`]), and rules ([`rules`]) are searched in the scope bodies that their filters
//! select ([`engine`]).  The findings are put to an AI classifier if one is configured
//! ([`ai_filter`]) and rendered as a report ([`output`]).  [`cli`] holds the decisions of a scan
//! over many files.
//!
//! What a function computes is stated in the `*_spec` modules, and what holds of it in general in
//! the `*_laws` modules.

pub mod ai_filter;
pub mod ai_laws;
pub mod chain_laws;
pub mod cli;
pub mod cli_laws;
pub mod engine;
pub mod engine_laws;
pub mod engine_spec;
pub mod header_laws;
pub mod lex_laws;
pub mod lex_spec;
pub mod lex_token_laws;
pub mod lexer;
pub mod lines;
pub mod lines_laws;
pub mod match_laws;
pub mod output;
pub mod output_laws;
pub mod output_spec;
pub mod pattern;
pub mod profile_laws;
pub mod ranges;
pub mod report_laws;
pub mod rules;
pub mod rules_laws;
pub mod scope;
pub mod scope_laws;
pub mod scope_spec;
pub mod text;
pub mod text_laws;
pub mod tree_laws;
