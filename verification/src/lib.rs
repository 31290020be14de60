//! Grammar-driven parsing of command-line invocations.
//!
//! A declarative, per-program [`parser_config::ParserConfig`] describes an
//! arbitrary program's option syntax: separator characters, short (single
//! character) and long (string) options, quoting and value-gluing flags, and
//! behaviour tags.  Driven by such a description, the library splits a raw
//! command line into tokens, resolves every token into a typed element
//! (options, free-standing arguments, separators, inline parse errors),
//! classifies every captured value into a semantic kind, and can enrich a
//! parsed sequence with the behaviour tags the description declares.

pub mod chars_util;
pub mod classify;
pub mod config_cache;
pub mod parse_engine;
pub mod parser_config;
pub mod parser_structs;
