//! What the automata that the construction puts together accept, told by
//! what their parts accept.

use vstd::prelude::*;
use crate::composition::{
    followed_by_edge, lemma_followed_by_edges, lemma_literal_edges, lemma_repetition_edges,
    lemma_with_alternative_edges, repeats, repetition_edge, skips, with_alternative_edge,
};
use crate::fragment::{lemma_accepting_state, lemma_fragment_ends};
use crate::language::label;
use crate::nfa::{Edge, Nfa};
use crate::paths::{
    embeds, lemma_dead_end, lemma_spells_concat, lemma_spells_edge, lemma_spells_lifted,
    lemma_spells_nothing, lemma_spells_silent_step, lemma_spells_step,
};
use crate::syntax::RepeatKind;
use crate::thompson::{followed_by, literal, repetition, with_alternative};

verus! {

/// A proper fragment accepts what it spells from state 0 to its accepting state.
pub proof fn lemma_proper_accepts(nfa: Nfa, word: Seq<char>)
    requires
        nfa.is_proper(),
    ensures
        nfa.accepts(word) == nfa.spells(0, nfa.accepting_state(), word),
{
    lemma_fragment_ends(nfa);
    let end = nfa.accepting_state();
    if nfa.spells(0, end, word) {
        assert(nfa.accepting.contains(end) && nfa.spells(nfa.start->0, end, word));
    }
}

/// The automaton of a set of characters is a proper fragment.
pub proof fn lemma_literal_proper(atoms: Seq<char>)
    ensures
        literal(atoms).is_proper(),
{
    lemma_literal_edges(atoms);
    lemma_accepting_state(literal(atoms), 1);
}

/// The automaton of a set of characters accepts the words of one character
/// out of the set, and no others.
pub proof fn lemma_literal_language(atoms: Seq<char>, word: Seq<char>)
    ensures
        literal(atoms).accepts(word) == (word.len() == 1 && atoms.contains(word[0])),
{
    let nfa = literal(atoms);
    lemma_literal_edges(atoms);
    lemma_accepting_state(nfa, 1);
    lemma_proper_accepts(nfa, word);
    if nfa.spells(0, 1, word) {
        let path = choose|path: Seq<Edge>| nfa.leads(0, path, 1) && Nfa::reads(path) == word;
        assert(nfa.has_edge(0, path[0].symbol, path[0].to));
        lemma_dead_end(nfa, 1, path.drop_first(), 1);
        assert(Nfa::reads(path.drop_first()) == Seq::<char>::empty());
    }
    if word.len() == 1 && atoms.contains(word[0]) {
        assert(nfa.has_edge(0, Some(word[0]), 1));
        lemma_spells_edge(nfa, 0, Some(word[0]), 1);
        assert(label(Some(word[0])) =~= word);
    }
}

/// Whether `word` falls into a piece that `first` accepts and a piece that
/// `second` accepts.
pub open spec fn accepts_in_turn(first: Nfa, second: Nfa, word: Seq<char>) -> bool {
    exists|cut: int|
        0 <= cut <= word.len() && first.accepts(word.take(cut)) && second.accepts(word.skip(cut))
}

/// What a path through `followed_by(acc, child)` to its accepting state
/// consumes, by the state at which the path sets out: within `child`, what
/// `child` spells from there to its accepting state; within `acc`, what
/// `acc` spells from there to its accepting state, followed by a word that
/// `child` accepts.
pub open spec fn followed_by_rest(acc: Nfa, child: Nfa, from: nat, word: Seq<char>) -> bool {
    if from >= acc.states() {
        child.spells((from - acc.states()) as nat, child.accepting_state(), word)
    } else {
        exists|cut: int|
            0 <= cut <= word.len() && acc.spells(from, acc.accepting_state(), word.take(cut))
                && child.spells(0, child.accepting_state(), word.skip(cut))
    }
}

/// Every path through `followed_by(acc, child)` to its accepting state
/// consumes what `followed_by_rest` says of the state at which it sets out.
proof fn lemma_followed_by_sound(acc: Nfa, child: Nfa, from: nat, path: Seq<Edge>)
    requires
        acc.is_proper(),
        child.is_proper(),
        followed_by(acc, child).leads(from, path, child.accepting_state() + acc.states()),
    ensures
        followed_by_rest(acc, child, from, Nfa::reads(path)),
    decreases path.len(),
{
    let offset = acc.states();
    let word = Nfa::reads(path);
    lemma_fragment_ends(acc);
    if path.len() == 0 {
        lemma_spells_nothing(child, child.accepting_state());
    } else {
        let symbol = path[0].symbol;
        let next = path[0].to;
        let rest = Nfa::reads(path.drop_first());
        lemma_followed_by_sound(acc, child, next, path.drop_first());
        lemma_followed_by_edges(acc, child);
        assert(followed_by_edge(acc, child, from, symbol, next));
        if acc.has_edge(from, symbol, next) {
            let cut = choose|cut: int|
                0 <= cut <= rest.len() && acc.spells(next, acc.accepting_state(), rest.take(cut))
                    && child.spells(0, child.accepting_state(), rest.skip(cut));
            lemma_spells_step(acc, from, symbol, next, acc.accepting_state(), rest.take(cut));
            let longer = cut + label(symbol).len();
            assert(word.take(longer) =~= label(symbol) + rest.take(cut));
            assert(word.skip(longer) =~= rest.skip(cut));
        } else if from >= offset && next >= offset && child.has_edge(
            (from - offset) as nat,
            symbol,
            (next - offset) as nat,
        ) {
            lemma_spells_step(
                child,
                (from - offset) as nat,
                symbol,
                (next - offset) as nat,
                child.accepting_state(),
                rest,
            );
        } else {
            lemma_spells_nothing(acc, acc.accepting_state());
            assert(word.take(0) =~= Seq::<char>::empty());
            assert(word.skip(0) =~= rest);
        }
    }
}

/// One more expression behind a proper fragment gives a proper fragment.
pub proof fn lemma_followed_by_proper(acc: Nfa, child: Nfa)
    requires
        acc.is_proper(),
        child.is_proper(),
    ensures
        followed_by(acc, child).is_proper(),
        followed_by(acc, child).accepting_state() == child.accepting_state() + acc.states(),
{
    lemma_fragment_ends(acc);
    lemma_fragment_ends(child);
    lemma_followed_by_edges(acc, child);
    let whole = followed_by(acc, child);
    let end = child.accepting_state() + acc.states();
    lemma_accepting_state(whole, end);
    assert forall|symbol: Option<char>, to: nat| !whole.has_edge(end, symbol, to) by {
        assert(whole.has_edge(end, symbol, to) == followed_by_edge(acc, child, end, symbol, to));
        if acc.has_edge(end, symbol, to) {
            acc.lemma_edge_in_range(end, symbol, to);
        }
        assert(!child.has_edge(child.accepting_state(), symbol, (to - acc.states()) as nat));
    }
}

/// An automaton with one more expression behind it accepts the words that
/// fall into a piece that the automaton accepted before and a piece that the
/// expression's automaton accepts, and no others.
pub proof fn lemma_followed_by_language(acc: Nfa, child: Nfa, word: Seq<char>)
    requires
        acc.is_proper(),
        child.is_proper(),
    ensures
        followed_by(acc, child).accepts(word) == accepts_in_turn(acc, child, word),
{
    let whole = followed_by(acc, child);
    let offset = acc.states();
    let acc_end = acc.accepting_state();
    let child_end = child.accepting_state();
    let end = child_end + offset;
    lemma_followed_by_proper(acc, child);
    lemma_followed_by_edges(acc, child);
    lemma_proper_accepts(whole, word);
    if whole.spells(0, end, word) {
        let path = choose|path: Seq<Edge>| whole.leads(0, path, end) && Nfa::reads(path) == word;
        lemma_followed_by_sound(acc, child, 0, path);
        let cut = choose|cut: int|
            0 <= cut <= word.len() && acc.spells(0, acc_end, word.take(cut)) && child.spells(
                0,
                child_end,
                word.skip(cut),
            );
        lemma_proper_accepts(acc, word.take(cut));
        lemma_proper_accepts(child, word.skip(cut));
    }
    if accepts_in_turn(acc, child, word) {
        let cut = choose|cut: int|
            0 <= cut <= word.len() && acc.accepts(word.take(cut)) && child.accepts(word.skip(cut));
        assert(embeds(whole, acc, 0)) by {
            assert forall|from: nat, symbol: Option<char>, to: nat| #[trigger]
                acc.has_edge(from, symbol, to) implies whole.has_edge(from + 0, symbol, to + 0) by {
                assert(followed_by_edge(acc, child, from, symbol, to));
            }
        }
        assert(embeds(whole, child, offset)) by {
            assert forall|from: nat, symbol: Option<char>, to: nat| #[trigger]
                child.has_edge(from, symbol, to) implies whole.has_edge(
                from + offset,
                symbol,
                to + offset,
            ) by {
                assert(followed_by_edge(acc, child, from + offset, symbol, to + offset));
            }
        }
        lemma_spells_lifted(whole, acc, 0, 0, acc_end, word.take(cut));
        lemma_spells_lifted(whole, child, offset, 0, child_end, word.skip(cut));
        assert(followed_by_edge(acc, child, acc_end, None, offset));
        lemma_spells_silent_step(whole, acc_end, offset, end, word.skip(cut));
        lemma_spells_concat(whole, 0, acc_end, end, word.take(cut), word.skip(cut));
        assert(word.take(cut) + word.skip(cut) =~= word);
    }
}

/// Whether `nfa` can take alternatives between its states 0 and 1: no edge
/// leads to state 0, and none leaves state 1.
pub open spec fn is_junction(nfa: Nfa) -> bool {
    &&& nfa.well_formed()
    &&& nfa.states() >= 2
    &&& nfa.is_source(0)
    &&& nfa.is_dead_end(1)
}

/// What a path through `with_alternative(acc, child)` to state 1 consumes,
/// by the state at which the path sets out.
pub open spec fn with_alternative_rest(acc: Nfa, child: Nfa, from: nat, word: Seq<char>) -> bool {
    if from >= acc.states() {
        child.spells((from - acc.states()) as nat, child.accepting_state(), word)
    } else if from == 0 {
        acc.spells(0, 1, word) || child.spells(0, child.accepting_state(), word)
    } else {
        acc.spells(from, 1, word)
    }
}

/// Every path through `with_alternative(acc, child)` to state 1 consumes
/// what `with_alternative_rest` says of the state at which it sets out.
proof fn lemma_with_alternative_sound(acc: Nfa, child: Nfa, from: nat, path: Seq<Edge>)
    requires
        is_junction(acc),
        child.is_proper(),
        with_alternative(acc, child).leads(from, path, 1),
    ensures
        with_alternative_rest(acc, child, from, Nfa::reads(path)),
    decreases path.len(),
{
    let offset = acc.states();
    let word = Nfa::reads(path);
    if path.len() == 0 {
        lemma_spells_nothing(acc, 1);
    } else {
        let symbol = path[0].symbol;
        let next = path[0].to;
        let rest = Nfa::reads(path.drop_first());
        lemma_with_alternative_sound(acc, child, next, path.drop_first());
        lemma_with_alternative_edges(acc, child);
        assert(with_alternative_edge(acc, child, from, symbol, next));
        if acc.has_edge(from, symbol, next) {
            lemma_spells_step(acc, from, symbol, next, 1, rest);
        } else if from >= offset && next >= offset && child.has_edge(
            (from - offset) as nat,
            symbol,
            (next - offset) as nat,
        ) {
            lemma_spells_step(
                child,
                (from - offset) as nat,
                symbol,
                (next - offset) as nat,
                child.accepting_state(),
                rest,
            );
        } else if from == 0 {
            assert(word =~= rest);
        } else {
            let behind = choose|behind: Seq<Edge>| acc.leads(1, behind, 1) && Nfa::reads(behind) == rest;
            lemma_dead_end(acc, 1, behind, 1);
        }
    }
}

/// One more alternative leaves an automaton fit for further alternatives.
pub proof fn lemma_with_alternative_junction(acc: Nfa, child: Nfa)
    requires
        is_junction(acc),
        child.is_proper(),
    ensures
        is_junction(with_alternative(acc, child)),
{
    lemma_fragment_ends(child);
    lemma_with_alternative_edges(acc, child);
    let whole = with_alternative(acc, child);
    assert forall|from: nat, symbol: Option<char>| !whole.has_edge(from, symbol, 0) by {
        assert(whole.has_edge(from, symbol, 0) == with_alternative_edge(acc, child, from, symbol, 0));
    }
    assert forall|symbol: Option<char>, to: nat| !whole.has_edge(1, symbol, to) by {
        assert(whole.has_edge(1, symbol, to) == with_alternative_edge(acc, child, 1, symbol, to));
    }
}

/// An automaton with one more alternative spells from its state 0 to its
/// state 1 what it spelled between them before and what the alternative's
/// automaton accepts, and nothing else.
pub proof fn lemma_with_alternative_language(acc: Nfa, child: Nfa, word: Seq<char>)
    requires
        is_junction(acc),
        child.is_proper(),
    ensures
        with_alternative(acc, child).spells(0, 1, word) == (acc.spells(0, 1, word) || child.accepts(
            word,
        )),
{
    let whole = with_alternative(acc, child);
    let offset = acc.states();
    let child_end = child.accepting_state();
    lemma_with_alternative_edges(acc, child);
    lemma_proper_accepts(child, word);
    if whole.spells(0, 1, word) {
        let path = choose|path: Seq<Edge>| whole.leads(0, path, 1) && Nfa::reads(path) == word;
        lemma_with_alternative_sound(acc, child, 0, path);
    }
    if acc.spells(0, 1, word) {
        assert(embeds(whole, acc, 0)) by {
            assert forall|from: nat, symbol: Option<char>, to: nat| #[trigger]
                acc.has_edge(from, symbol, to) implies whole.has_edge(from + 0, symbol, to + 0) by {
                assert(with_alternative_edge(acc, child, from, symbol, to));
            }
        }
        lemma_spells_lifted(whole, acc, 0, 0, 1, word);
    }
    if child.spells(0, child_end, word) {
        assert(embeds(whole, child, offset)) by {
            assert forall|from: nat, symbol: Option<char>, to: nat| #[trigger]
                child.has_edge(from, symbol, to) implies whole.has_edge(
                from + offset,
                symbol,
                to + offset,
            ) by {
                assert(with_alternative_edge(acc, child, from + offset, symbol, to + offset));
            }
        }
        lemma_spells_lifted(whole, child, offset, 0, child_end, word);
        assert(with_alternative_edge(acc, child, 0, None, offset));
        assert(with_alternative_edge(acc, child, child_end + offset, None, 1));
        lemma_spells_edge(whole, child_end + offset, None, 1);
        lemma_spells_concat(whole, offset, child_end + offset, 1, word, label(None));
        lemma_spells_silent_step(whole, 0, offset, 1, word);
    }
}

/// Automata with the same rows have the same paths.
pub proof fn lemma_leads_by_rows(a: Nfa, b: Nfa, from: nat, path: Seq<Edge>, to: nat)
    requires
        a.rows == b.rows,
    ensures
        a.leads(from, path, to) == b.leads(from, path, to),
    decreases path.len(),
{
    if path.len() > 0 {
        lemma_leads_by_rows(a, b, path[0].to, path.drop_first(), to);
    }
}

/// Automata with the same rows spell the same words between the same states.
pub proof fn lemma_spells_by_rows(a: Nfa, b: Nfa, from: nat, to: nat, word: Seq<char>)
    requires
        a.rows == b.rows,
    ensures
        a.spells(from, to, word) == b.spells(from, to, word),
{
    if a.spells(from, to, word) {
        let path = choose|path: Seq<Edge>| a.leads(from, path, to) && Nfa::reads(path) == word;
        lemma_leads_by_rows(a, b, from, path, to);
    }
    if b.spells(from, to, word) {
        let path = choose|path: Seq<Edge>| b.leads(from, path, to) && Nfa::reads(path) == word;
        lemma_leads_by_rows(a, b, from, path, to);
    }
}

/// Whether `word` is what a repetition of this kind allows of the words that
/// `inner` accepts: for `?` nothing or one of them, for `*` any number of
/// them in a row, for `+` one or more of them in a row.
pub open spec fn repeated(kind: RepeatKind, inner: Nfa, word: Seq<char>) -> bool {
    match kind {
        RepeatKind::ZeroOrOne => word.len() == 0 || inner.accepts(word),
        RepeatKind::ZeroOrMore => exists|times: nat| inner.accepts_power(times, word),
        RepeatKind::OneOrMore => exists|times: nat| times >= 1 && inner.accepts_power(times, word),
        RepeatKind::Range => false,
    }
}

/// What may follow a pass through the inner automaton of a repetition: more
/// passes where the kind allows them, and otherwise nothing.
pub open spec fn repeated_on(kind: RepeatKind, inner: Nfa, word: Seq<char>) -> bool {
    if repeats(kind) {
        exists|times: nat| inner.accepts_power(times, word)
    } else {
        word.len() == 0
    }
}

/// What a path through `repetition(kind, inner)` to state 1 consumes, by the
/// state at which the path sets out.
pub open spec fn repetition_rest(kind: RepeatKind, inner: Nfa, from: nat, word: Seq<char>) -> bool {
    if from == 0 {
        repeated(kind, inner, word)
    } else if from == 1 {
        word.len() == 0
    } else {
        exists|cut: int|
            0 <= cut <= word.len() && inner.spells(
                (from - 2) as nat,
                inner.accepting_state(),
                word.take(cut),
            ) && repeated_on(kind, inner, word.skip(cut))
    }
}

/// A repetition of a proper fragment is a proper fragment that accepts in state 1.
pub proof fn lemma_repetition_proper(kind: RepeatKind, inner: Nfa)
    requires
        inner.is_proper(),
    ensures
        repetition(kind, inner).is_proper(),
        repetition(kind, inner).accepting_state() == 1,
{
    lemma_fragment_ends(inner);
    lemma_repetition_edges(kind, inner);
    let whole = repetition(kind, inner);
    lemma_accepting_state(whole, 1);
    assert forall|symbol: Option<char>, to: nat| !whole.has_edge(1, symbol, to) by {
        assert(whole.has_edge(1, symbol, to) == repetition_edge(kind, inner, 1, symbol, to));
    }
}

/// Every path through `repetition(kind, inner)` to state 1 consumes what
/// `repetition_rest` says of the state at which it sets out.
proof fn lemma_repetition_sound(kind: RepeatKind, inner: Nfa, from: nat, path: Seq<Edge>)
    requires
        inner.is_proper(),
        kind != RepeatKind::Range,
        repetition(kind, inner).leads(from, path, 1),
    ensures
        repetition_rest(kind, inner, from, Nfa::reads(path)),
    decreases path.len(),
{
    let end = inner.accepting_state();
    let word = Nfa::reads(path);
    lemma_repetition_edges(kind, inner);
    if path.len() == 0 {
    } else {
        let symbol = path[0].symbol;
        let next = path[0].to;
        let rest = Nfa::reads(path.drop_first());
        lemma_repetition_sound(kind, inner, next, path.drop_first());
        assert(repetition_edge(kind, inner, from, symbol, next));
        if from >= 2 && next >= 2 && inner.has_edge((from - 2) as nat, symbol, (next - 2) as nat) {
            let cut = choose|cut: int|
                0 <= cut <= rest.len() && inner.spells((next - 2) as nat, end, rest.take(cut))
                    && repeated_on(kind, inner, rest.skip(cut));
            lemma_spells_step(
                inner,
                (from - 2) as nat,
                symbol,
                (next - 2) as nat,
                end,
                rest.take(cut),
            );
            let longer = cut + label(symbol).len();
            assert(word.take(longer) =~= label(symbol) + rest.take(cut));
            assert(word.skip(longer) =~= rest.skip(cut));
        } else if from == 0 && next == 2 {
            let cut = choose|cut: int|
                0 <= cut <= rest.len() && inner.spells(0, end, rest.take(cut)) && repeated_on(
                    kind,
                    inner,
                    rest.skip(cut),
                );
            lemma_proper_accepts(inner, rest.take(cut));
            if repeats(kind) {
                let times = choose|times: nat| inner.accepts_power(times, rest.skip(cut));
                assert(inner.accepts_power(times + 1, word));
            } else {
                assert(rest.take(cut) =~= rest);
            }
        } else if from == 0 {
            assert(inner.accepts_power(0, word));
        } else if next == 1 {
            lemma_spells_nothing(inner, end);
            assert(word.take(0) =~= Seq::<char>::empty());
            assert(inner.accepts_power(0, word));
        } else {
            lemma_spells_nothing(inner, end);
            assert(word.take(0) =~= Seq::<char>::empty());
            assert(word.skip(0) =~= word);
        }
    }
}

/// A repetition holds the edges of its inner automaton, two states up, and
/// the edges on no input that its kind asks for.
proof fn lemma_repetition_edges_embed(kind: RepeatKind, inner: Nfa)
    requires
        inner.is_proper(),
    ensures
        embeds(repetition(kind, inner), inner, 2),
        repetition(kind, inner).has_edge(0, None, 2),
        repetition(kind, inner).has_edge(inner.accepting_state() + 2, None, 1),
        skips(kind) ==> repetition(kind, inner).has_edge(0, None, 1),
        repeats(kind) ==> repetition(kind, inner).has_edge(inner.accepting_state() + 2, None, 0),
{
    let whole = repetition(kind, inner);
    let end = inner.accepting_state();
    lemma_repetition_edges(kind, inner);
    assert forall|from: nat, symbol: Option<char>, to: nat| #[trigger]
        inner.has_edge(from, symbol, to) implies whole.has_edge(from + 2, symbol, to + 2) by {
        assert(repetition_edge(kind, inner, from + 2, symbol, to + 2));
    }
    assert(repetition_edge(kind, inner, 0, None, 2));
    assert(repetition_edge(kind, inner, end + 2, None, 1));
    if skips(kind) {
        assert(repetition_edge(kind, inner, 0, None, 1));
    }
    if repeats(kind) {
        assert(repetition_edge(kind, inner, end + 2, None, 0));
    }
}

/// One pass through the inner automaton of a repetition, from state 0 to the
/// state in which the inner automaton accepts.
proof fn lemma_repetition_pass(kind: RepeatKind, inner: Nfa, word: Seq<char>)
    requires
        inner.is_proper(),
        inner.accepts(word),
    ensures
        repetition(kind, inner).spells(0, inner.accepting_state() + 2, word),
{
    let whole = repetition(kind, inner);
    let end = inner.accepting_state();
    lemma_repetition_edges_embed(kind, inner);
    lemma_spells_lifted(whole, inner, 2, 0, end, word);
    lemma_spells_silent_step(whole, 0, 2, end + 2, word);
}

/// A repetition that may go through its inner automaton again spells from
/// state 0 to state 1 every word that falls into pieces which the inner
/// automaton accepts: any number of pieces for `*`, one or more for `+`.
proof fn lemma_repetition_complete(kind: RepeatKind, inner: Nfa, times: nat, word: Seq<char>)
    requires
        inner.is_proper(),
        repeats(kind),
        inner.accepts_power(times, word),
        kind == RepeatKind::OneOrMore ==> times >= 1,
    ensures
        repetition(kind, inner).spells(0, 1, word),
    decreases times,
{
    let whole = repetition(kind, inner);
    let end = inner.accepting_state();
    lemma_repetition_edges_embed(kind, inner);
    if times == 0 {
        lemma_spells_edge(whole, 0, None, 1);
        assert(label(None) =~= word);
    } else {
        let cut = choose|cut: int|
            0 <= cut <= word.len() && inner.accepts(word.take(cut)) && inner.accepts_power(
                (times - 1) as nat,
                word.skip(cut),
            );
        lemma_repetition_pass(kind, inner, word.take(cut));
        if times == 1 {
            lemma_spells_edge(whole, end + 2, None, 1);
            lemma_spells_concat(whole, 0, end + 2, 1, word.take(cut), label(None));
            assert(word.take(cut) + label(None) =~= word);
        } else {
            lemma_repetition_complete(kind, inner, (times - 1) as nat, word.skip(cut));
            lemma_spells_silent_step(whole, end + 2, 0, 1, word.skip(cut));
            lemma_spells_concat(whole, 0, end + 2, 1, word.take(cut), word.skip(cut));
            assert(word.take(cut) + word.skip(cut) =~= word);
        }
    }
}

/// A repetition accepts what its kind allows of the words that its inner
/// automaton accepts, and nothing else.
pub proof fn lemma_repetition_language(kind: RepeatKind, inner: Nfa, word: Seq<char>)
    requires
        inner.is_proper(),
        kind != RepeatKind::Range,
    ensures
        repetition(kind, inner).accepts(word) == repeated(kind, inner, word),
{
    let whole = repetition(kind, inner);
    let end = inner.accepting_state();
    lemma_repetition_proper(kind, inner);
    lemma_proper_accepts(whole, word);
    lemma_repetition_edges_embed(kind, inner);
    if whole.spells(0, 1, word) {
        let path = choose|path: Seq<Edge>| whole.leads(0, path, 1) && Nfa::reads(path) == word;
        lemma_repetition_sound(kind, inner, 0, path);
    }
    if repeated(kind, inner, word) {
        match kind {
            RepeatKind::ZeroOrOne => {
                if word.len() == 0 {
                    lemma_spells_edge(whole, 0, None, 1);
                    assert(label(None) =~= word);
                } else {
                    lemma_repetition_pass(kind, inner, word);
                    lemma_spells_edge(whole, end + 2, None, 1);
                    lemma_spells_concat(whole, 0, end + 2, 1, word, label(None));
                }
            },
            RepeatKind::ZeroOrMore => {
                let times = choose|times: nat| inner.accepts_power(times, word);
                lemma_repetition_complete(kind, inner, times, word);
            },
            RepeatKind::OneOrMore => {
                let times = choose|times: nat| times >= 1 && inner.accepts_power(times, word);
                lemma_repetition_complete(kind, inner, times, word);
            },
            RepeatKind::Range => {},
        }
    }
}

} // verus!
