//! What the automata of the simplest expressions accept, read off the
//! theorem that an automaton accepts what its expression matches.

use vstd::prelude::*;
use crate::correctness::theorem_thompson_language;
use crate::syntax::{CharClass, CharRange, CharSet, ClassText, Regex, RepeatKind, SetItem};
use crate::thompson::{defect, first_defect, supported, thompson};

verus! {

/// The expression `inner` under the greedy operator `kind`, shown as `shown`.
pub open spec fn repeat(kind: RepeatKind, inner: Regex, shown: Seq<char>) -> Regex {
    Regex::Repetition { kind, greedy: true, inner: Box::new(inner), shown }
}

/// The class `[start-end]`, shown as `shown`.
pub open spec fn range_class(range: CharRange, shown: ClassText) -> Regex {
    Regex::Class {
        class: CharClass::Bracketed { negated: false, set: CharSet::Item(SetItem::Range(range)) },
        shown,
    }
}

/// Pieces that are each the one character `c` make the word of as many `c`.
pub proof fn lemma_flatten_singles(pieces: Seq<Seq<char>>, c: char)
    requires
        forall|i: int| 0 <= i < pieces.len() ==> #[trigger] pieces[i] == seq![c],
    ensures
        pieces.flatten() == Seq::new(pieces.len(), |i: int| c),
    decreases pieces.len(),
{
    if pieces.len() > 0 {
        let rest = pieces.drop_first();
        assert forall|i: int| 0 <= i < rest.len() implies #[trigger] rest[i] == seq![c] by {
            assert(rest[i] == pieces[i + 1]);
        }
        lemma_flatten_singles(rest, c);
        assert(pieces.flatten() =~= seq![c] + rest.flatten());
    }
    assert(pieces.flatten() =~= Seq::new(pieces.len(), |i: int| c));
}

/// A list of two characters holds nothing that is not covered.
pub proof fn lemma_two_literals_covered(a: char, b: char)
    ensures
        first_defect(seq![Regex::Literal(a), Regex::Literal(b)], 0) is None,
{
    let children = seq![Regex::Literal(a), Regex::Literal(b)];
    assert(first_defect(children, 2) is None);
    assert(defect(children[1]) is None);
    assert(first_defect(children, 1) is None);
    assert(defect(children[0]) is None);
}

/// The automaton of a character accepts that character as a word, and no
/// other word.
pub proof fn lemma_literal_accepts(c: char, word: Seq<char>)
    ensures
        thompson(Regex::Literal(c)).accepts(word) == (word == seq![c]),
{
    theorem_thompson_language(Regex::Literal(c), word);
}

/// The automaton of `a|b` accepts the word `a` and the word `b`, and no other.
pub proof fn lemma_choice_accepts(a: char, b: char, word: Seq<char>)
    ensures
        thompson(Regex::Alternation(seq![Regex::Literal(a), Regex::Literal(b)])).accepts(word) == (
        word == seq![a] || word == seq![b]),
{
    let children = seq![Regex::Literal(a), Regex::Literal(b)];
    let regex = Regex::Alternation(children);
    lemma_two_literals_covered(a, b);
    theorem_thompson_language(regex, word);
    assert(children[0].matches(word) == (word == seq![a]));
    assert(children[1].matches(word) == (word == seq![b]));
}

/// The automaton of `ab` accepts the word `ab`, and no other.
pub proof fn lemma_pair_accepts(a: char, b: char, word: Seq<char>)
    ensures
        thompson(Regex::Concat(seq![Regex::Literal(a), Regex::Literal(b)])).accepts(word) == (word
            == seq![a, b]),
{
    let children = seq![Regex::Literal(a), Regex::Literal(b)];
    let regex = Regex::Concat(children);
    lemma_two_literals_covered(a, b);
    theorem_thompson_language(regex, word);
    if regex.matches(word) {
        let pieces = choose|pieces: Seq<Seq<char>>|
            pieces.len() == children.len() && #[trigger] pieces.flatten() == word && forall|i: int|
                0 <= i < children.len() ==> children[i].matches(#[trigger] pieces[i]);
        assert(children[0].matches(pieces[0]));
        assert(children[1].matches(pieces[1]));
        assert(pieces =~= seq![seq![a], seq![b]]);
    }
    let parts = seq![seq![a], seq![b]];
    assert(parts.flatten() =~= seq![a, b]) by {
        reveal_with_fuel(Seq::flatten, 3);
    }
    if word == seq![a, b] {
        assert(children[0].matches(parts[0]));
        assert(children[1].matches(parts[1]));
        assert(parts.len() == children.len() && parts.flatten() == word && forall|i: int|
            0 <= i < children.len() ==> children[i].matches(#[trigger] parts[i]));
    }
}

/// The automaton of `c*` accepts the words that hold nothing but `c`, the
/// empty word among them, and no others.
pub proof fn lemma_star_accepts(c: char, shown: Seq<char>, word: Seq<char>)
    ensures
        thompson(repeat(RepeatKind::ZeroOrMore, Regex::Literal(c), shown)).accepts(word) == (forall|i: int|
            0 <= i < word.len() ==> word[i] == c),
{
    let inner = Regex::Literal(c);
    let regex = repeat(RepeatKind::ZeroOrMore, inner, shown);
    assert(supported(regex)) by {
        reveal_with_fuel(defect, 3);
    }
    theorem_thompson_language(regex, word);
    if regex.matches(word) {
        let pieces = choose|pieces: Seq<Seq<char>>|
            #[trigger] pieces.flatten() == word && forall|i: int|
                0 <= i < pieces.len() ==> inner.matches(#[trigger] pieces[i]);
        lemma_flatten_singles(pieces, c);
    }
    if forall|i: int| 0 <= i < word.len() ==> word[i] == c {
        let pieces = Seq::new(word.len(), |i: int| seq![c]);
        lemma_flatten_singles(pieces, c);
        assert(pieces.flatten() =~= word);
        assert(pieces.flatten() == word && forall|i: int|
            0 <= i < pieces.len() ==> inner.matches(#[trigger] pieces[i]));
    }
}

/// The automaton of `c+` accepts the words that hold nothing but `c` and at
/// least one of it, and no others.
pub proof fn lemma_plus_accepts(c: char, shown: Seq<char>, word: Seq<char>)
    ensures
        thompson(repeat(RepeatKind::OneOrMore, Regex::Literal(c), shown)).accepts(word) == (word.len() >= 1
            && forall|i: int| 0 <= i < word.len() ==> word[i] == c),
{
    let inner = Regex::Literal(c);
    let regex = repeat(RepeatKind::OneOrMore, inner, shown);
    assert(supported(regex)) by {
        reveal_with_fuel(defect, 3);
    }
    theorem_thompson_language(regex, word);
    if regex.matches(word) {
        let pieces = choose|pieces: Seq<Seq<char>>|
            pieces.len() >= 1 && #[trigger] pieces.flatten() == word && forall|i: int|
                0 <= i < pieces.len() ==> inner.matches(#[trigger] pieces[i]);
        lemma_flatten_singles(pieces, c);
    }
    if word.len() >= 1 && forall|i: int| 0 <= i < word.len() ==> word[i] == c {
        let pieces = Seq::new(word.len(), |i: int| seq![c]);
        lemma_flatten_singles(pieces, c);
        assert(pieces.flatten() =~= word);
        assert(pieces.len() >= 1 && pieces.flatten() == word && forall|i: int|
            0 <= i < pieces.len() ==> inner.matches(#[trigger] pieces[i]));
    }
}

/// The automaton of `c?` accepts the empty word and the word `c`, and no other.
pub proof fn lemma_optional_accepts(c: char, shown: Seq<char>, word: Seq<char>)
    ensures
        thompson(repeat(RepeatKind::ZeroOrOne, Regex::Literal(c), shown)).accepts(word) == (word.len() == 0
            || word == seq![c]),
{
    let regex = repeat(RepeatKind::ZeroOrOne, Regex::Literal(c), shown);
    assert(supported(regex)) by {
        reveal_with_fuel(defect, 3);
    }
    theorem_thompson_language(regex, word);
    assert(Regex::Literal(c).matches(word) == (word == seq![c]));
}

/// The automaton of a class of one range accepts each character from the
/// start of the range to its end as a word, and no other word.
pub proof fn lemma_range_accepts(range: CharRange, shown: ClassText, word: Seq<char>)
    ensures
        thompson(range_class(range, shown)).accepts(word) == (word.len() == 1 && range.start <= word[0]
            <= range.end),
{
    theorem_thompson_language(range_class(range, shown), word);
}

/// Alternations of covered expressions accept the same words if each
/// alternative of one is an alternative of the other: the order of the
/// alternatives changes the numbers of the states, and nothing else.
pub proof fn lemma_alternation_order(first: Seq<Regex>, second: Seq<Regex>, word: Seq<char>)
    requires
        supported(Regex::Alternation(first)),
        supported(Regex::Alternation(second)),
        forall|i: int| 0 <= i < first.len() ==> second.contains(#[trigger] first[i]),
        forall|i: int| 0 <= i < second.len() ==> first.contains(#[trigger] second[i]),
    ensures
        thompson(Regex::Alternation(first)).accepts(word) == thompson(
            Regex::Alternation(second),
        ).accepts(word),
{
    theorem_thompson_language(Regex::Alternation(first), word);
    theorem_thompson_language(Regex::Alternation(second), word);
    if Regex::Alternation(first).matches(word) {
        let i = choose|i: int| 0 <= i < first.len() && (#[trigger] first[i]).matches(word);
        let j = choose|j: int| 0 <= j < second.len() && second[j] == first[i];
        assert(second[j].matches(word));
    }
    if Regex::Alternation(second).matches(word) {
        let i = choose|i: int| 0 <= i < second.len() && (#[trigger] second[i]).matches(word);
        let j = choose|j: int| 0 <= j < first.len() && first[j] == second[i];
        assert(first[j].matches(word));
    }
}

} // verus!
