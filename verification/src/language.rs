//! What it means for a syntax tree to match a word, and for an automaton to
//! accept one.

use vstd::prelude::*;
use crate::nfa::{Edge, Nfa};
use crate::syntax::{Regex, RepeatKind};
use crate::thompson::class_range;

verus! {

/// The word that a single transition consumes: its symbol, or nothing.
pub open spec fn label(symbol: Option<char>) -> Seq<char> {
    match symbol {
        Some(c) => seq![c],
        None => Seq::empty(),
    }
}

impl Nfa {
    /// Whether `path`, a list of edges taken one after another, leads from
    /// `from` to `to`.
    pub open spec fn leads(self, from: nat, path: Seq<Edge>, to: nat) -> bool
        decreases path.len(),
    {
        if path.len() == 0 {
            from == to
        } else {
            self.has_edge(from, path[0].symbol, path[0].to) && self.leads(
                path[0].to,
                path.drop_first(),
                to,
            )
        }
    }

    /// The word that is consumed along `path`.
    pub open spec fn reads(path: Seq<Edge>) -> Seq<char>
        decreases path.len(),
    {
        if path.len() == 0 {
            Seq::empty()
        } else {
            label(path[0].symbol) + Nfa::reads(path.drop_first())
        }
    }

    /// Whether some path from `from` to `to` consumes exactly `word`.
    pub open spec fn spells(self, from: nat, to: nat, word: Seq<char>) -> bool {
        exists|path: Seq<Edge>| self.leads(from, path, to) && Nfa::reads(path) == word
    }

    /// Whether the automaton accepts `word`: some path from the start state
    /// to an accepting state consumes exactly `word`.
    pub open spec fn accepts(self, word: Seq<char>) -> bool {
        self.start is Some && exists|end: nat|
            self.accepting.contains(end) && self.spells(self.start->0, end, word)
    }

    /// Whether the automaton accepts exactly the words that `regex` matches.
    pub open spec fn recognizes(self, regex: Regex) -> bool {
        forall|word: Seq<char>| #[trigger] self.accepts(word) == regex.matches(word)
    }

    /// Whether `word` falls into `times` pieces, each of which the automaton accepts.
    pub open spec fn accepts_power(self, times: nat, word: Seq<char>) -> bool
        decreases times,
    {
        if times == 0 {
            word.len() == 0
        } else {
            exists|cut: int|
                0 <= cut <= word.len() && self.accepts(word.take(cut)) && self.accepts_power(
                    (times - 1) as nat,
                    word.skip(cut),
                )
        }
    }
}

impl Regex {
    /// Whether this expression matches the whole of `word`:
    /// a character matches itself; a class of one range, each character from
    /// its start to its end; a group, what the expression in it matches; a
    /// choice, what one of its alternatives matches; a sequence, the words
    /// that fall into pieces which its expressions match, one each and in
    /// order; `?`, nothing or what the inner expression matches; `*`, the
    /// words that fall into any number of pieces which the inner expression
    /// matches; `+`, the same with at least one piece. A construct that the
    /// translation does not cover matches nothing.
    pub open spec fn matches(self, word: Seq<char>) -> bool
        decreases self,
    {
        match self {
            Regex::Empty(_) | Regex::Flags(_) | Regex::Dot(_) | Regex::Assertion(_) => false,
            Regex::Literal(c) => word == seq![c],
            Regex::Class { class, shown } => match class_range(class) {
                Some(range) => word.len() == 1 && range.start <= word[0] <= range.end,
                None => false,
            },
            Regex::Repetition { kind, greedy, inner, shown } => match kind {
                RepeatKind::ZeroOrOne => word.len() == 0 || inner.matches(word),
                RepeatKind::ZeroOrMore => exists|pieces: Seq<Seq<char>>|
                    #[trigger] pieces.flatten() == word && forall|i: int|
                        0 <= i < pieces.len() ==> inner.matches(#[trigger] pieces[i]),
                RepeatKind::OneOrMore => exists|pieces: Seq<Seq<char>>|
                    pieces.len() >= 1 && #[trigger] pieces.flatten() == word && forall|i: int|
                        0 <= i < pieces.len() ==> inner.matches(#[trigger] pieces[i]),
                RepeatKind::Range => false,
            },
            Regex::Group(inner) => inner.matches(word),
            Regex::Alternation(children) => exists|i: int|
                0 <= i < children.len() && (#[trigger] children[i]).matches(word),
            Regex::Concat(children) => exists|pieces: Seq<Seq<char>>|
                pieces.len() == children.len() && #[trigger] pieces.flatten() == word && forall|i: int|
                    0 <= i < children.len() ==> children[i].matches(#[trigger] pieces[i]),
        }
    }
}

} // verus!
