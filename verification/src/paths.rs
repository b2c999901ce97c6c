//! Paths through an automaton: how they are joined, and how a path through
//! an automaton that was merged into another one shows up there.

use vstd::prelude::*;
use crate::language::label;
use crate::nfa::{Edge, Nfa};

verus! {

/// The word along two paths, one after the other, is the word along the
/// first followed by the word along the second.
pub proof fn lemma_reads_append(first: Seq<Edge>, second: Seq<Edge>)
    ensures
        Nfa::reads(first + second) == Nfa::reads(first) + Nfa::reads(second),
    decreases first.len(),
{
    if first.len() == 0 {
        assert(first + second =~= second);
    } else {
        let joined = first + second;
        assert(joined.drop_first() =~= first.drop_first() + second);
        lemma_reads_append(first.drop_first(), second);
    }
}

/// A path to a state and a path on from there make one path.
pub proof fn lemma_leads_append(
    nfa: Nfa,
    from: nat,
    first: Seq<Edge>,
    middle: nat,
    second: Seq<Edge>,
    to: nat,
)
    requires
        nfa.leads(from, first, middle),
        nfa.leads(middle, second, to),
    ensures
        nfa.leads(from, first + second, to),
    decreases first.len(),
{
    if first.len() == 0 {
        assert(first + second =~= second);
    } else {
        let joined = first + second;
        assert(joined.drop_first() =~= first.drop_first() + second);
        lemma_leads_append(nfa, first[0].to, first.drop_first(), middle, second, to);
    }
}

/// Every state spells the empty word to itself.
pub proof fn lemma_spells_nothing(nfa: Nfa, state: nat)
    ensures
        nfa.spells(state, state, Seq::empty()),
{
    let path = Seq::<Edge>::empty();
    assert(Nfa::reads(path) == Seq::<char>::empty());
}

/// An edge spells its label.
pub proof fn lemma_spells_edge(nfa: Nfa, from: nat, symbol: Option<char>, to: nat)
    requires
        nfa.has_edge(from, symbol, to),
    ensures
        nfa.spells(from, to, label(symbol)),
{
    let path = seq![Edge { to, symbol }];
    assert(nfa.leads(to, path.drop_first(), to));
    assert(Nfa::reads(path.drop_first()) == Seq::<char>::empty());
    assert(Nfa::reads(path) =~= label(symbol));
}

/// What is spelled to a state and what is spelled on from there is spelled
/// from end to end.
pub proof fn lemma_spells_concat(
    nfa: Nfa,
    from: nat,
    middle: nat,
    to: nat,
    first: Seq<char>,
    second: Seq<char>,
)
    requires
        nfa.spells(from, middle, first),
        nfa.spells(middle, to, second),
    ensures
        nfa.spells(from, to, first + second),
{
    let a = choose|path: Seq<Edge>| nfa.leads(from, path, middle) && Nfa::reads(path) == first;
    let b = choose|path: Seq<Edge>| nfa.leads(middle, path, to) && Nfa::reads(path) == second;
    lemma_leads_append(nfa, from, a, middle, b, to);
    lemma_reads_append(a, b);
}

/// An edge and what is spelled behind it.
pub proof fn lemma_spells_step(
    nfa: Nfa,
    from: nat,
    symbol: Option<char>,
    next: nat,
    to: nat,
    word: Seq<char>,
)
    requires
        nfa.has_edge(from, symbol, next),
        nfa.spells(next, to, word),
    ensures
        nfa.spells(from, to, label(symbol) + word),
{
    lemma_spells_edge(nfa, from, symbol, next);
    lemma_spells_concat(nfa, from, next, to, label(symbol), word);
}

/// What is spelled on behind an edge on no input is spelled from before it.
pub proof fn lemma_spells_silent_step(nfa: Nfa, from: nat, next: nat, to: nat, word: Seq<char>)
    requires
        nfa.has_edge(from, None, next),
        nfa.spells(next, to, word),
    ensures
        nfa.spells(from, to, word),
{
    lemma_spells_step(nfa, from, None, next, to, word);
}

/// Whether `whole` holds every edge of `part`, moved up by `offset`.
pub open spec fn embeds(whole: Nfa, part: Nfa, offset: nat) -> bool {
    forall|from: nat, symbol: Option<char>, to: nat| #[trigger]
        part.has_edge(from, symbol, to) ==> whole.has_edge(from + offset, symbol, to + offset)
}

/// A path, every state on it moved up by `offset`.
pub open spec fn lifted(path: Seq<Edge>, offset: nat) -> Seq<Edge> {
    path.map_values(|e: Edge| e.shift(offset))
}

/// A path through the part is, moved up, a path through the whole, and
/// consumes the same word.
pub proof fn lemma_leads_lifted(
    whole: Nfa,
    part: Nfa,
    offset: nat,
    from: nat,
    path: Seq<Edge>,
    to: nat,
)
    requires
        embeds(whole, part, offset),
        part.leads(from, path, to),
    ensures
        whole.leads(from + offset, lifted(path, offset), to + offset),
        Nfa::reads(lifted(path, offset)) == Nfa::reads(path),
    decreases path.len(),
{
    let moved = lifted(path, offset);
    if path.len() > 0 {
        assert(moved.drop_first() =~= lifted(path.drop_first(), offset));
        lemma_leads_lifted(whole, part, offset, path[0].to, path.drop_first(), to);
    }
}

/// What the part spells between two states, the whole spells between the
/// same states moved up.
pub proof fn lemma_spells_lifted(
    whole: Nfa,
    part: Nfa,
    offset: nat,
    from: nat,
    to: nat,
    word: Seq<char>,
)
    requires
        embeds(whole, part, offset),
        part.spells(from, to, word),
    ensures
        whole.spells(from + offset, to + offset, word),
{
    let path = choose|path: Seq<Edge>| part.leads(from, path, to) && Nfa::reads(path) == word;
    lemma_leads_lifted(whole, part, offset, from, path, to);
}

/// From a state without outgoing edges no path leads anywhere else, and none
/// consumes anything.
pub proof fn lemma_dead_end(nfa: Nfa, from: nat, path: Seq<Edge>, to: nat)
    requires
        forall|symbol: Option<char>, next: nat| !nfa.has_edge(from, symbol, next),
        nfa.leads(from, path, to),
    ensures
        path.len() == 0,
        from == to,
{
}

} // verus!
