//! The automaton of a syntax tree accepts exactly the words that the tree
//! matches.

use vstd::prelude::*;
use crate::fragment::{lemma_accepting_state, lemma_first_defect_none};
use crate::joining::{
    accepts_in_turn, is_junction, lemma_followed_by_language, lemma_followed_by_proper,
    lemma_literal_language, lemma_literal_proper, lemma_proper_accepts, lemma_repetition_language,
    lemma_repetition_proper, lemma_spells_by_rows, lemma_with_alternative_junction,
    lemma_with_alternative_language, repeated,
};
use crate::nfa::{Edge, Nfa};
use crate::paths::{lemma_dead_end, lemma_spells_nothing};
use crate::syntax::{CharRange, Regex, RepeatKind};
use crate::thompson::{
    alternatives, chars_between, class_range, first_defect, is_char_code, range_atoms, sequence,
    supported, thompson,
};

verus! {

/// The characters between two numbers are the characters whose numbers lie
/// between them.
pub proof fn lemma_chars_between(low: nat, high: nat, c: char)
    ensures
        chars_between(low, high).contains(c) == (low <= c as nat && (c as nat) < high),
    decreases high - low,
{
    if low < high {
        let below = chars_between(low, (high - 1) as nat);
        lemma_chars_between(low, (high - 1) as nat, c);
        if is_char_code((high - 1) as nat) {
            let last = (high - 1) as char;
            let all = below.push(last);
            if below.contains(c) {
                let k = choose|k: int| 0 <= k < below.len() && below[k] == c;
                assert(all[k] == c);
            }
            if c == last {
                assert(all[below.len() as int] == c);
            }
            if all.contains(c) {
                let k = choose|k: int| 0 <= k < all.len() && all[k] == c;
                if k < below.len() {
                    assert(below[k] == c);
                }
            }
        }
    }
}

/// No character stands twice among the characters between two numbers.
pub proof fn lemma_chars_between_distinct(low: nat, high: nat)
    ensures
        chars_between(low, high).no_duplicates(),
    decreases high - low,
{
    if low < high {
        let below = chars_between(low, (high - 1) as nat);
        lemma_chars_between_distinct(low, (high - 1) as nat);
        if is_char_code((high - 1) as nat) {
            let last = (high - 1) as char;
            lemma_chars_between(low, (high - 1) as nat, last);
            assert(!below.contains(last));
            let all = below.push(last);
            assert forall|i: int, j: int| 0 <= i < all.len() && 0 <= j < all.len() && i != j implies all[i]
                != all[j] by {
                if i < below.len() && j == below.len() {
                    assert(below[i] == all[i]);
                }
                if j < below.len() && i == below.len() {
                    assert(below[j] == all[j]);
                }
            }
        }
    }
}

/// The characters of a range are the characters from its start to its end.
pub proof fn lemma_range_atoms(range: CharRange, c: char)
    ensures
        range_atoms(range).contains(c) == (range.start <= c <= range.end),
{
    lemma_chars_between(range.start as nat, range.end as nat + 1, c);
}

/// Whether one of the first `count` of `children` matches `word`.
pub open spec fn matches_any(children: Seq<Regex>, count: nat, word: Seq<char>) -> bool {
    exists|i: int| 0 <= i < count && i < children.len() && (#[trigger] children[i]).matches(word)
}

/// Whether `regex` matches each of `pieces`.
pub open spec fn matches_each(regex: Regex, pieces: Seq<Seq<char>>) -> bool {
    forall|i: int| 0 <= i < pieces.len() ==> regex.matches(#[trigger] pieces[i])
}

/// Whether `pieces` are `count` words that the first `count` of `children`
/// match, one each and in order.
pub open spec fn matches_in_turn(children: Seq<Regex>, count: nat, pieces: Seq<Seq<char>>) -> bool {
    pieces.len() == count && count <= children.len() && forall|i: int|
        0 <= i < count ==> children[i].matches(#[trigger] pieces[i])
}

/// Whether `word` falls into pieces that the first `count` of `children`
/// match, one each and in order.
pub open spec fn matches_sequence(children: Seq<Regex>, count: nat, word: Seq<char>) -> bool {
    exists|pieces: Seq<Seq<char>>|
        #[trigger] pieces.flatten() == word && matches_in_turn(children, count, pieces)
}

/// The automaton of a covered syntax tree is a proper fragment: it starts
/// at state 0, and no edge leaves its one accepting state.
pub proof fn lemma_thompson_proper(regex: Regex)
    requires
        supported(regex),
    ensures
        thompson(regex).is_proper(),
    decreases regex, 0nat,
{
    match regex {
        Regex::Empty(_) | Regex::Flags(_) | Regex::Dot(_) | Regex::Assertion(_) => {},
        Regex::Literal(c) => {
            lemma_literal_proper(seq![c]);
        },
        Regex::Class { class, shown } => {
            lemma_literal_proper(range_atoms(class_range(class)->0));
        },
        Regex::Repetition { kind, greedy, inner, shown } => {
            lemma_thompson_proper(*inner);
            lemma_repetition_proper(kind, thompson(*inner));
        },
        Regex::Group(inner) => {
            lemma_thompson_proper(*inner);
        },
        Regex::Alternation(children) => {
            lemma_alternatives_junction(children, children.len());
            let joined = alternatives(children, children.len());
            let whole = thompson(regex);
            lemma_accepting_state(whole, 1);
            assert forall|symbol: Option<char>, to: nat| !whole.has_edge(1, symbol, to) by {
                assert(whole.has_edge(1, symbol, to) == joined.has_edge(1, symbol, to));
            }
        },
        Regex::Concat(children) => {
            lemma_sequence_proper(children, children.len());
        },
    }
}

/// The automaton of the first `count` alternatives can take more of them.
pub proof fn lemma_alternatives_junction(children: Seq<Regex>, count: nat)
    requires
        first_defect(children, 0) is None,
        count <= children.len(),
    ensures
        is_junction(alternatives(children, count)),
    decreases children, count,
{
    if count == 0 {
        Nfa::empty().lemma_add_state();
        Nfa::empty().add_state().lemma_add_state();
        let two = alternatives(children, count);
        assert forall|from: nat, symbol: Option<char>, to: nat| !two.has_edge(from, symbol, to) by {
            assert(!Nfa::empty().has_edge(from, symbol, to));
        }
    } else {
        lemma_alternatives_junction(children, (count - 1) as nat);
        lemma_first_defect_none(children, 0, count - 1);
        lemma_thompson_proper(children[count - 1]);
        lemma_with_alternative_junction(
            alternatives(children, (count - 1) as nat),
            thompson(children[count - 1]),
        );
    }
}

/// The automaton of the first `count` expressions of a sequence is a proper fragment.
pub proof fn lemma_sequence_proper(children: Seq<Regex>, count: nat)
    requires
        first_defect(children, 0) is None,
        count <= children.len(),
    ensures
        sequence(children, count).is_proper(),
    decreases children, count,
{
    if count == 0 {
        Nfa::empty().lemma_add_state();
        let one = sequence(children, count);
        assert forall|symbol: Option<char>, to: nat| !one.has_edge(0, symbol, to) by {
            assert(!Nfa::empty().has_edge(0, symbol, to));
        }
    } else {
        lemma_sequence_proper(children, (count - 1) as nat);
        lemma_first_defect_none(children, 0, count - 1);
        lemma_thompson_proper(children[count - 1]);
        lemma_followed_by_proper(sequence(children, (count - 1) as nat), thompson(children[count - 1]));
    }
}

/// The automaton of a covered syntax tree accepts exactly the words that the
/// tree matches.
pub proof fn theorem_thompson_language(regex: Regex, word: Seq<char>)
    requires
        supported(regex),
    ensures
        thompson(regex).accepts(word) == regex.matches(word),
    decreases regex, 0nat, 0nat,
{
    match regex {
        Regex::Empty(_) | Regex::Flags(_) | Regex::Dot(_) | Regex::Assertion(_) => {},
        Regex::Literal(c) => {
            lemma_literal_language(seq![c], word);
            if word.len() == 1 && seq![c].contains(word[0]) {
                assert(word =~= seq![c]);
            }
            if word == seq![c] {
                assert(seq![c][0] == c);
            }
        },
        Regex::Class { class, shown } => {
            let range = class_range(class)->0;
            lemma_literal_language(range_atoms(range), word);
            if word.len() == 1 {
                lemma_range_atoms(range, word[0]);
            }
        },
        Regex::Repetition { kind, greedy, inner, shown } => {
            let machine = thompson(*inner);
            lemma_thompson_proper(*inner);
            lemma_repetition_language(kind, machine, word);
            match kind {
                RepeatKind::ZeroOrOne => {
                    theorem_thompson_language(*inner, word);
                },
                RepeatKind::ZeroOrMore => {
                    if repeated(kind, machine, word) {
                        let times = choose|times: nat| machine.accepts_power(times, word);
                        let pieces = lemma_power_pieces(*inner, times, word);
                    }
                    if regex.matches(word) {
                        let pieces = choose|pieces: Seq<Seq<char>>|
                            #[trigger] pieces.flatten() == word && forall|i: int|
                                0 <= i < pieces.len() ==> inner.matches(#[trigger] pieces[i]);
                        lemma_pieces_power(*inner, pieces);
                    }
                },
                RepeatKind::OneOrMore => {
                    if repeated(kind, machine, word) {
                        let times = choose|times: nat| times >= 1 && machine.accepts_power(times, word);
                        let pieces = lemma_power_pieces(*inner, times, word);
                    }
                    if regex.matches(word) {
                        let pieces = choose|pieces: Seq<Seq<char>>|
                            pieces.len() >= 1 && #[trigger] pieces.flatten() == word && forall|i: int|
                                0 <= i < pieces.len() ==> inner.matches(#[trigger] pieces[i]);
                        lemma_pieces_power(*inner, pieces);
                    }
                },
                RepeatKind::Range => {},
            }
        },
        Regex::Group(inner) => {
            theorem_thompson_language(*inner, word);
        },
        Regex::Alternation(children) => {
            let joined = alternatives(children, children.len());
            let whole = thompson(regex);
            lemma_thompson_proper(regex);
            lemma_accepting_state(whole, 1);
            lemma_proper_accepts(whole, word);
            lemma_spells_by_rows(whole, joined, 0, 1, word);
            lemma_alternatives_language(children, children.len(), word);
            if matches_any(children, children.len(), word) {
                let i = choose|i: int|
                    0 <= i < children.len() && i < children.len() && (#[trigger] children[i]).matches(
                        word,
                    );
            }
            if regex.matches(word) {
                let i = choose|i: int|
                    0 <= i < children.len() && (#[trigger] children[i]).matches(word);
            }
        },
        Regex::Concat(children) => {
            lemma_sequence_language(children, children.len(), word);
            if matches_sequence(children, children.len(), word) {
                let pieces = choose|pieces: Seq<Seq<char>>|
                    #[trigger] pieces.flatten() == word && matches_in_turn(
                        children,
                        children.len(),
                        pieces,
                    );
            }
            if regex.matches(word) {
                let pieces = choose|pieces: Seq<Seq<char>>|
                    pieces.len() == children.len() && #[trigger] pieces.flatten() == word
                        && forall|i: int|
                        0 <= i < children.len() ==> children[i].matches(#[trigger] pieces[i]);
                assert(pieces.flatten() == word && matches_in_turn(children, children.len(), pieces));
            }
        },
    }
}

/// The automaton of a covered syntax tree recognizes the language of the tree.
pub proof fn theorem_thompson_recognizes(regex: Regex)
    requires
        supported(regex),
    ensures
        thompson(regex).recognizes(regex),
{
    assert forall|word: Seq<char>| #[trigger]
        thompson(regex).accepts(word) == regex.matches(word) by {
        theorem_thompson_language(regex, word);
    }
}

/// The pieces of a word that the automaton of a covered syntax tree accepts
/// piece by piece: the tree matches each of them.
pub proof fn lemma_power_pieces(inner: Regex, times: nat, word: Seq<char>) -> (pieces: Seq<
    Seq<char>,
>)
    requires
        supported(inner),
        thompson(inner).accepts_power(times, word),
    ensures
        pieces.len() == times,
        pieces.flatten() == word,
        matches_each(inner, pieces),
    decreases inner, 1nat, times,
{
    let machine = thompson(inner);
    if times == 0 {
        Seq::empty()
    } else {
        let cut = choose|cut: int|
            0 <= cut <= word.len() && machine.accepts(word.take(cut)) && machine.accepts_power(
                (times - 1) as nat,
                word.skip(cut),
            );
        theorem_thompson_language(inner, word.take(cut));
        let rest = lemma_power_pieces(inner, (times - 1) as nat, word.skip(cut));
        let pieces = seq![word.take(cut)] + rest;
        assert(pieces.drop_first() =~= rest);
        assert forall|i: int| 0 <= i < pieces.len() implies inner.matches(#[trigger] pieces[i]) by {
            if i > 0 {
                assert(pieces[i] == rest[i - 1]);
            }
        }
        pieces
    }
}

/// Pieces that a covered syntax tree matches make a word that its automaton
/// accepts piece by piece.
pub proof fn lemma_pieces_power(inner: Regex, pieces: Seq<Seq<char>>)
    requires
        supported(inner),
        matches_each(inner, pieces),
    ensures
        thompson(inner).accepts_power(pieces.len(), pieces.flatten()),
    decreases inner, 1nat, pieces.len(),
{
    let word = pieces.flatten();
    if pieces.len() > 0 {
        let rest = pieces.drop_first();
        theorem_thompson_language(inner, pieces[0]);
        assert forall|i: int| 0 <= i < rest.len() implies inner.matches(#[trigger] rest[i]) by {
            assert(rest[i] == pieces[i + 1]);
        }
        lemma_pieces_power(inner, rest);
        let cut = pieces[0].len() as int;
        assert(word.take(cut) =~= pieces[0]);
        assert(word.skip(cut) =~= rest.flatten());
    }
}

/// The automaton of the first `count` alternatives spells from state 0 to
/// state 1 exactly the words that one of those alternatives matches.
pub proof fn lemma_alternatives_language(children: Seq<Regex>, count: nat, word: Seq<char>)
    requires
        first_defect(children, 0) is None,
        count <= children.len(),
    ensures
        alternatives(children, count).spells(0, 1, word) == matches_any(children, count, word),
    decreases children, 0nat, count,
{
    if count == 0 {
        let two = alternatives(children, count);
        if two.spells(0, 1, word) {
            let path = choose|path: Seq<Edge>| two.leads(0, path, 1) && Nfa::reads(path) == word;
            assert(two.has_edge(0, path[0].symbol, path[0].to));
        }
    } else {
        let acc = alternatives(children, (count - 1) as nat);
        let child = thompson(children[count - 1]);
        lemma_alternatives_junction(children, (count - 1) as nat);
        lemma_first_defect_none(children, 0, count - 1);
        lemma_thompson_proper(children[count - 1]);
        lemma_with_alternative_language(acc, child, word);
        lemma_alternatives_language(children, (count - 1) as nat, word);
        theorem_thompson_language(children[count - 1], word);
        if matches_any(children, (count - 1) as nat, word) {
            let i = choose|i: int|
                0 <= i < count - 1 && i < children.len() && (#[trigger] children[i]).matches(word);
        }
        if children[count - 1].matches(word) {
            assert(0 <= count - 1 < count && count - 1 < children.len() && children[count
                - 1].matches(word));
        }
        if matches_any(children, count, word) {
            let i = choose|i: int|
                0 <= i < count && i < children.len() && (#[trigger] children[i]).matches(word);
            if i < count - 1 {
                assert(0 <= i < count - 1 && i < children.len() && children[i].matches(word));
            }
        }
    }
}

/// The automaton of the first `count` expressions of a sequence accepts
/// exactly the words that fall into pieces that those expressions match, one
/// each and in order.
pub proof fn lemma_sequence_language(children: Seq<Regex>, count: nat, word: Seq<char>)
    requires
        first_defect(children, 0) is None,
        count <= children.len(),
    ensures
        sequence(children, count).accepts(word) == matches_sequence(children, count, word),
    decreases children, 0nat, count,
{
    if count == 0 {
        let one = sequence(children, count);
        lemma_accepting_state(one, 0);
        lemma_proper_accepts(one, word);
        if one.spells(0, 0, word) {
            let path = choose|path: Seq<Edge>| one.leads(0, path, 0) && Nfa::reads(path) == word;
            lemma_dead_end(one, 0, path, 0);
            let none = Seq::<Seq<char>>::empty();
            assert(none.flatten() == word && matches_in_turn(children, count, none));
        }
        if matches_sequence(children, count, word) {
            let pieces = choose|pieces: Seq<Seq<char>>|
                #[trigger] pieces.flatten() == word && matches_in_turn(children, count, pieces);
            lemma_spells_nothing(one, 0);
        }
    } else {
        let acc = sequence(children, (count - 1) as nat);
        let child = thompson(children[count - 1]);
        lemma_sequence_proper(children, (count - 1) as nat);
        lemma_first_defect_none(children, 0, count - 1);
        lemma_thompson_proper(children[count - 1]);
        lemma_followed_by_language(acc, child, word);
        if accepts_in_turn(acc, child, word) {
            let cut = choose|cut: int|
                0 <= cut <= word.len() && acc.accepts(word.take(cut)) && child.accepts(word.skip(cut));
            lemma_sequence_language(children, (count - 1) as nat, word.take(cut));
            theorem_thompson_language(children[count - 1], word.skip(cut));
            let before = choose|pieces: Seq<Seq<char>>|
                #[trigger] pieces.flatten() == word.take(cut) && matches_in_turn(
                    children,
                    (count - 1) as nat,
                    pieces,
                );
            let pieces = before.push(word.skip(cut));
            before.lemma_flatten_push(word.skip(cut));
            assert(word.take(cut) + word.skip(cut) =~= word);
            assert forall|i: int| 0 <= i < count implies children[i].matches(
                #[trigger] pieces[i],
            ) by {
                if i < count - 1 {
                    assert(pieces[i] == before[i]);
                }
            }
        }
        if matches_sequence(children, count, word) {
            let pieces = choose|pieces: Seq<Seq<char>>|
                #[trigger] pieces.flatten() == word && matches_in_turn(children, count, pieces);
            let before = pieces.drop_last();
            let last = pieces.last();
            assert(pieces =~= before.push(last));
            before.lemma_flatten_push(last);
            let cut = before.flatten().len() as int;
            assert(word.take(cut) =~= before.flatten());
            assert(word.skip(cut) =~= last);
            assert forall|i: int| 0 <= i < count - 1 implies children[i].matches(
                #[trigger] before[i],
            ) by {
                assert(before[i] == pieces[i]);
            }
            lemma_sequence_language(children, (count - 1) as nat, word.take(cut));
            theorem_thompson_language(children[count - 1], word.skip(cut));
        }
    }
}

} // verus!
