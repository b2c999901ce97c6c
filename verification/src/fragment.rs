//! What holds of every automaton that the construction yields: it has one
//! start state and one accepting state, and it mentions no state that it does
//! not have.

use vstd::prelude::*;
use crate::nfa::Nfa;
use crate::syntax::{Regex, RepeatKind};
use crate::thompson::{
    alternatives, class_range, first_defect, followed_by, literal, repetition, sequence, supported,
    thompson, with_alternative,
};

verus! {

/// The accepting state of an automaton with a single accepting state is that state.
pub proof fn lemma_accepting_state(nfa: Nfa, state: nat)
    requires
        nfa.accepting == set![state],
    ensures
        nfa.accepting_state() == state,
{
    assert(nfa.accepting.contains(state));
}

/// A fragment's start and accepting state are states of it.
pub proof fn lemma_fragment_ends(nfa: Nfa)
    requires
        nfa.is_fragment(),
    ensures
        nfa.start_state() < nfa.states(),
        nfa.accepting_state() < nfa.states(),
        nfa.accepting == set![nfa.accepting_state()],
        nfa.start == Some(nfa.start_state()),
{
    let q = choose|q: nat| nfa.accepting == set![q];
    lemma_accepting_state(nfa, q);
    assert(nfa.accepting.contains(q));
}

/// The automaton of a set of characters is a fragment of two states.
pub proof fn lemma_literal_fragment(atoms: Seq<char>)
    ensures
        literal(atoms).is_fragment(),
        literal(atoms).states() == 2,
        literal(atoms).start == Some(0nat),
        literal(atoms).accepting == set![1nat],
{
    let nfa = literal(atoms);
    assert(nfa.accepting.contains(1));
}

/// A repetition of a fragment is a fragment with two states more, started at
/// state 0 and accepting in state 1.
pub proof fn lemma_repetition_fragment(kind: RepeatKind, inner: Nfa)
    requires
        inner.is_fragment(),
    ensures
        repetition(kind, inner).is_fragment(),
        repetition(kind, inner).states() == inner.states() + 2,
        repetition(kind, inner).start == Some(0nat),
        repetition(kind, inner).accepting == set![1nat],
{
    lemma_fragment_ends(inner);
    let inner_start = inner.start_state() + 2;
    let inner_end = inner.accepting_state() + 2;
    let two = Nfa::empty().add_state().add_state();
    Nfa::empty().lemma_add_state();
    Nfa::empty().add_state().lemma_add_state();
    Nfa::lemma_merge_well_formed(two, inner);
    let merged = two.merge(inner);
    merged.lemma_add_transition(0, inner_start, None);
    let first = merged.add_transition(0, inner_start, None);
    first.lemma_add_transition(inner_end, 1, None);
    let wired = first.add_transition(inner_end, 1, None);
    wired.lemma_add_transition(0, 1, None);
    wired.lemma_add_transition(inner_end, 0, None);
    wired.add_transition(0, 1, None).lemma_add_transition(inner_end, 0, None);
    let result = repetition(kind, inner);
    assert(result.accepting =~= set![1nat]);
}

/// One more alternative keeps the common start and end and stays well formed.
pub proof fn lemma_with_alternative(acc: Nfa, child: Nfa)
    requires
        acc.well_formed(),
        acc.states() >= 2,
        child.is_fragment(),
    ensures
        with_alternative(acc, child).well_formed(),
        with_alternative(acc, child).states() == acc.states() + child.states(),
{
    lemma_fragment_ends(child);
    let offset = acc.states();
    Nfa::lemma_merge_well_formed(acc, child);
    let merged = acc.merge(child);
    merged.lemma_add_transition(0, child.start_state() + offset, None);
    merged.add_transition(0, child.start_state() + offset, None).lemma_add_transition(
        child.accepting_state() + offset,
        1,
        None,
    );
}

/// One more expression behind a fragment gives a fragment that still starts
/// where the first one did.
pub proof fn lemma_followed_by(acc: Nfa, child: Nfa)
    requires
        acc.is_fragment(),
        child.is_fragment(),
    ensures
        followed_by(acc, child).is_fragment(),
        followed_by(acc, child).states() == acc.states() + child.states(),
        followed_by(acc, child).start == acc.start,
        followed_by(acc, child).accepting == set![child.accepting_state() + acc.states()],
{
    lemma_fragment_ends(acc);
    lemma_fragment_ends(child);
    let offset = acc.states();
    Nfa::lemma_merge_well_formed(acc, child);
    let merged = acc.merge(child);
    merged.lemma_add_transition(acc.accepting_state(), child.start_state() + offset, None);
    let result = followed_by(acc, child);
    assert(result.accepting =~= set![child.accepting_state() + offset]);
    assert(result.accepting.contains(child.accepting_state() + offset));
}

/// Where none of `children[from..]` has a defect, each of them is covered.
pub proof fn lemma_first_defect_none(children: Seq<Regex>, from: nat, i: int)
    requires
        first_defect(children, from) is None,
        from <= i < children.len(),
    ensures
        supported(children[i]),
    decreases children.len() - from,
{
    if from < i {
        lemma_first_defect_none(children, from + 1, i);
    }
}

/// The automaton of a covered syntax tree has exactly one start state, which
/// is state 0, and exactly one accepting state, and every state that its
/// transitions, its start or its accepting mark name is below its number of
/// states.
pub proof fn lemma_thompson_fragment(regex: Regex)
    requires
        supported(regex),
    ensures
        thompson(regex).is_fragment(),
        thompson(regex).start == Some(0nat),
    decreases regex, 0nat,
{
    match regex {
        Regex::Empty(_) | Regex::Flags(_) | Regex::Dot(_) | Regex::Assertion(_) => {},
        Regex::Literal(c) => {
            lemma_literal_fragment(seq![c]);
        },
        Regex::Class { class, shown } => {
            lemma_literal_fragment(crate::thompson::range_atoms(class_range(class)->0));
        },
        Regex::Repetition { kind, greedy, inner, shown } => {
            lemma_thompson_fragment(*inner);
            lemma_repetition_fragment(kind, thompson(*inner));
        },
        Regex::Group(inner) => {
            lemma_thompson_fragment(*inner);
        },
        Regex::Alternation(children) => {
            lemma_alternatives(children, children.len());
            let result = thompson(regex);
            assert(result.accepting =~= set![1nat]);
            assert(result.accepting.contains(1));
        },
        Regex::Concat(children) => {
            lemma_sequence(children, children.len());
        },
    }
}

/// The automaton of the first `count` alternatives is well formed and holds
/// the common start and end.
pub proof fn lemma_alternatives(children: Seq<Regex>, count: nat)
    requires
        first_defect(children, 0) is None,
        count <= children.len(),
    ensures
        alternatives(children, count).well_formed(),
        alternatives(children, count).states() >= 2,
    decreases children, count,
{
    if count == 0 {
        Nfa::empty().lemma_add_state();
        Nfa::empty().add_state().lemma_add_state();
    } else {
        lemma_alternatives(children, (count - 1) as nat);
        lemma_first_defect_none(children, 0, count - 1);
        lemma_thompson_fragment(children[count - 1]);
        lemma_with_alternative(
            alternatives(children, (count - 1) as nat),
            thompson(children[count - 1]),
        );
    }
}

/// The automaton of the first `count` expressions of a sequence is a fragment
/// started at state 0.
pub proof fn lemma_sequence(children: Seq<Regex>, count: nat)
    requires
        first_defect(children, 0) is None,
        count <= children.len(),
    ensures
        sequence(children, count).is_fragment(),
        sequence(children, count).start == Some(0nat),
    decreases children, count,
{
    if count == 0 {
        Nfa::empty().lemma_add_state();
        let nfa = sequence(children, count);
        assert(nfa.accepting =~= set![0nat]);
        assert(nfa.accepting.contains(0));
    } else {
        lemma_sequence(children, (count - 1) as nat);
        lemma_first_defect_none(children, 0, count - 1);
        lemma_thompson_fragment(children[count - 1]);
        lemma_followed_by(sequence(children, (count - 1) as nat), thompson(children[count - 1]));
    }
}

} // verus!
