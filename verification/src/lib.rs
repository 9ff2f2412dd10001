//! A parser for a small EBNF-like grammar-definition language.
//!
//! The input text is a list of rule definitions such as
//! `word = letter | letter word`, each terminated by a newline or the end
//! of the input.  Parsing yields a [`grammar::Grammar`]: a mapping from
//! rule name to the rule's alternation of sequences of atoms, where an
//! atom is either a quoted string literal or a reference to another rule
//! by name.
//!
//! The module [`model`] holds the mathematical model of the parse: pure
//! functions over `Seq<char>` that say, position by position, what each
//! parser consumes and returns.  Every executable parser in [`grammar`]
//! is proved to follow that model exactly.  [`laws`] states and proves
//! the general properties of the parse: one entry per distinct rule
//! name with the last definition winning, determinism, and how runs of
//! whitespace are absorbed.

pub mod eval;
pub mod grammar;
pub mod laws;
pub mod model;
