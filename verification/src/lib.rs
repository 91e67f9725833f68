//! A small regular-expression engine: patterns are compiled into a
//! nondeterministic finite automaton (Thompson's construction) and matched
//! by epsilon-closure subset simulation, with no backtracking.
//!
//! Supported syntax:
//! - `*`, `+`, `?`: zero-or-more, one-or-more, zero-or-one of the preceding
//!   expression (at most one postfix operator per term),
//! - `|`: union of alternatives,
//! - `(...)`: grouping,
//! - `[...]`: character classes with ASCII ranges (`a-z`), class escapes
//!   (`\w`, `\W`, `\d`, `\D`, `\s`, `\S`) and leading `^` for negation,
//! - `.`: any single character,
//! - `\`: escapes for `w W d D s S * + \ ( ) .`.

pub mod builder;
pub mod character_sets;
pub mod nfa;
pub mod parser;
pub mod rejects;
