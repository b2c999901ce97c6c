//! Thompson's construction: from the syntax tree of a regular expression to
//! a nondeterministic finite automaton with transitions on no input.
//!
//! [`translator::translate`] takes a pattern and [`translator::build_tree`] a
//! syntax tree; both give an [`automaton::Automaton`] with one start state
//! and one accepting state, or name the first construct that is not covered.
//! The contracts say which automaton it is ([`thompson::thompson`]) and that
//! it accepts exactly the words that the expression matches
//! ([`correctness::theorem_thompson_language`]).
//!
//! - [`syntax`]: the syntax tree and its mathematical form.
//! - [`nfa`], [`automaton`]: the automaton as a mathematical value, and as
//!   data with the operations that grow and merge it.
//! - [`thompson`]: the construction as a function on syntax trees.
//! - [`translator`]: the builders, one for each kind of node.
//! - [`parser`]: the calls into `regex_syntax`, whose contracts are taken on
//!   trust.
//! - [`fragment`], [`language`], [`paths`], [`composition`], [`joining`],
//!   [`correctness`], [`corollaries`]: what is proved of the construction.
//! - [`parse_tree`]: a small parser of its own for patterns of characters,
//!   `|`, `*` and parentheses.

pub mod syntax;
pub mod nfa;
pub mod automaton;
pub mod thompson;
pub mod fragment;
pub mod language;
pub mod paths;
pub mod composition;
pub mod joining;
pub mod correctness;
pub mod corollaries;
pub mod parse_tree;
pub mod parser;
pub mod translator;
