//! The edges of the automata that the construction puts together: those of
//! the parts, moved up, and the few that join them.

use vstd::prelude::*;
use crate::fragment::lemma_fragment_ends;
use crate::nfa::Nfa;
use crate::syntax::RepeatKind;
use crate::thompson::{followed_by, literal, repetition, with_alternative};

verus! {

impl Nfa {
    /// Whether no edge leaves `state`.
    pub open spec fn is_dead_end(self, state: nat) -> bool {
        forall|symbol: Option<char>, to: nat| !self.has_edge(state, symbol, to)
    }

    /// Whether no edge leads to `state`.
    pub open spec fn is_source(self, state: nat) -> bool {
        forall|from: nat, symbol: Option<char>| !self.has_edge(from, symbol, state)
    }

    /// A fragment as the construction makes them: started at state 0, and
    /// with no edge that leaves its accepting state.
    pub open spec fn is_proper(self) -> bool {
        &&& self.is_fragment()
        &&& self.start == Some(0nat)
        &&& self.is_dead_end(self.accepting_state())
    }
}

/// Whether a repetition of this kind may pass over its inner expression.
pub open spec fn skips(kind: RepeatKind) -> bool {
    kind == RepeatKind::ZeroOrOne || kind == RepeatKind::ZeroOrMore
}

/// Whether a repetition of this kind may go through its inner expression again.
pub open spec fn repeats(kind: RepeatKind) -> bool {
    kind == RepeatKind::ZeroOrMore || kind == RepeatKind::OneOrMore
}

/// The edges of a repetition: those of the inner automaton, two states up,
/// and the edges on no input that join it to the new start 0 and end 1.
pub open spec fn repetition_edge(
    kind: RepeatKind,
    inner: Nfa,
    from: nat,
    symbol: Option<char>,
    to: nat,
) -> bool {
    ||| from >= 2 && to >= 2 && inner.has_edge((from - 2) as nat, symbol, (to - 2) as nat)
    ||| symbol is None && from == 0 && to == inner.start_state() + 2
    ||| symbol is None && from == inner.accepting_state() + 2 && to == 1
    ||| skips(kind) && symbol is None && from == 0 && to == 1
    ||| repeats(kind) && symbol is None && from == inner.accepting_state() + 2 && to == 0
}

/// A repetition has the edges that `repetition_edge` lists, and no others.
pub proof fn lemma_repetition_edges(kind: RepeatKind, inner: Nfa)
    requires
        inner.is_fragment(),
    ensures
        forall|from: nat, symbol: Option<char>, to: nat|
            repetition(kind, inner).has_edge(from, symbol, to) == repetition_edge(
                kind,
                inner,
                from,
                symbol,
                to,
            ),
{
    lemma_fragment_ends(inner);
    let inner_start = inner.start_state() + 2;
    let inner_end = inner.accepting_state() + 2;
    let two = Nfa::empty().add_state().add_state();
    Nfa::empty().lemma_add_state();
    Nfa::empty().add_state().lemma_add_state();
    Nfa::lemma_merge_well_formed(two, inner);
    Nfa::lemma_merge_edges(two, inner);
    let merged = two.merge(inner);
    merged.lemma_add_transition(0, inner_start, None);
    let first = merged.add_transition(0, inner_start, None);
    first.lemma_add_transition(inner_end, 1, None);
    let wired = first.add_transition(inner_end, 1, None);
    wired.lemma_add_transition(0, 1, None);
    wired.lemma_add_transition(inner_end, 0, None);
    wired.add_transition(0, 1, None).lemma_add_transition(inner_end, 0, None);
    let whole = repetition(kind, inner);
    assert forall|from: nat, symbol: Option<char>, to: nat|
        whole.has_edge(from, symbol, to) == repetition_edge(kind, inner, from, symbol, to) by {
        assert(!Nfa::empty().has_edge(from, symbol, to));
        assert(!two.has_edge(from, symbol, to));
    }
}

/// The edges of an automaton with one more expression behind it: its own,
/// those of the expression, moved up, and the edge on no input that joins
/// the two.
pub open spec fn followed_by_edge(
    acc: Nfa,
    child: Nfa,
    from: nat,
    symbol: Option<char>,
    to: nat,
) -> bool {
    ||| acc.has_edge(from, symbol, to)
    ||| from >= acc.states() && to >= acc.states() && child.has_edge(
        (from - acc.states()) as nat,
        symbol,
        (to - acc.states()) as nat,
    )
    ||| symbol is None && from == acc.accepting_state() && to == child.start_state() + acc.states()
}

/// An automaton with one more expression behind it has the edges that
/// `followed_by_edge` lists, and no others.
pub proof fn lemma_followed_by_edges(acc: Nfa, child: Nfa)
    requires
        acc.is_fragment(),
        child.is_fragment(),
    ensures
        forall|from: nat, symbol: Option<char>, to: nat|
            followed_by(acc, child).has_edge(from, symbol, to) == followed_by_edge(
                acc,
                child,
                from,
                symbol,
                to,
            ),
{
    lemma_fragment_ends(acc);
    lemma_fragment_ends(child);
    Nfa::lemma_merge_well_formed(acc, child);
    Nfa::lemma_merge_edges(acc, child);
    acc.merge(child).lemma_add_transition(
        acc.accepting_state(),
        child.start_state() + acc.states(),
        None,
    );
}

/// The edges of an automaton with one more alternative: its own, those of
/// the alternative, moved up, and the edges on no input from its state 0
/// into the alternative and from there to its state 1.
pub open spec fn with_alternative_edge(
    acc: Nfa,
    child: Nfa,
    from: nat,
    symbol: Option<char>,
    to: nat,
) -> bool {
    ||| acc.has_edge(from, symbol, to)
    ||| from >= acc.states() && to >= acc.states() && child.has_edge(
        (from - acc.states()) as nat,
        symbol,
        (to - acc.states()) as nat,
    )
    ||| symbol is None && from == 0 && to == child.start_state() + acc.states()
    ||| symbol is None && from == child.accepting_state() + acc.states() && to == 1
}

/// An automaton with one more alternative has the edges that
/// `with_alternative_edge` lists, and no others.
pub proof fn lemma_with_alternative_edges(acc: Nfa, child: Nfa)
    requires
        acc.well_formed(),
        acc.states() >= 2,
        child.is_fragment(),
    ensures
        forall|from: nat, symbol: Option<char>, to: nat|
            with_alternative(acc, child).has_edge(from, symbol, to) == with_alternative_edge(
                acc,
                child,
                from,
                symbol,
                to,
            ),
{
    lemma_fragment_ends(child);
    let offset = acc.states();
    Nfa::lemma_merge_well_formed(acc, child);
    Nfa::lemma_merge_edges(acc, child);
    let merged = acc.merge(child);
    merged.lemma_add_transition(0, child.start_state() + offset, None);
    merged.add_transition(0, child.start_state() + offset, None).lemma_add_transition(
        child.accepting_state() + offset,
        1,
        None,
    );
}

/// The automaton of a set of characters has an edge for each of them, from
/// state 0 to state 1, and no others.
pub proof fn lemma_literal_edges(atoms: Seq<char>)
    ensures
        forall|from: nat, symbol: Option<char>, to: nat|
            literal(atoms).has_edge(from, symbol, to) == (from == 0 && to == 1 && symbol is Some
                && atoms.contains(symbol->0)),
{
    let nfa = literal(atoms);
    let row = nfa.rows[0];
    assert forall|from: nat, symbol: Option<char>, to: nat|
        nfa.has_edge(from, symbol, to) == (from == 0 && to == 1 && symbol is Some && atoms.contains(
            symbol->0,
        )) by {
        let e = crate::nfa::Edge { to, symbol };
        if from == 0 {
            if row.contains(e) {
                let k = choose|k: int| 0 <= k < row.len() && row[k] == e;
                assert(atoms[k] == symbol->0);
            }
            if to == 1 && symbol is Some && atoms.contains(symbol->0) {
                let k = choose|k: int| 0 <= k < atoms.len() && atoms[k] == symbol->0;
                assert(row[k] == e);
            }
        } else if from == 1 {
            assert(nfa.rows[1].len() == 0);
        }
    }
}

} // verus!
