use thompson_nfa::automaton::Automaton;
use thompson_nfa::syntax::{
    CharClass, CharRange, CharSet, ClassShown, RepeatKind, SetItem, Syntax,
};
use thompson_nfa::translator::{build_tree, translate, TranslatorError};

fn closure(automaton: &Automaton, states: &mut Vec<bool>) {
    let mut changed = true;
    while changed {
        changed = false;
        for from in 0..automaton.states() {
            if !states[from] {
                continue;
            }
            for transition in automaton.transitions(from) {
                if transition.symbol.is_none() && !states[transition.to] {
                    states[transition.to] = true;
                    changed = true;
                }
            }
        }
    }
}

fn accepts(automaton: &Automaton, word: &str) -> bool {
    let count = automaton.states();
    let mut current = vec![false; count];
    match automaton.start_state() {
        Some(start) => current[start] = true,
        None => return false,
    }
    closure(automaton, &mut current);
    for symbol in word.chars() {
        let mut next = vec![false; count];
        for from in 0..count {
            if !current[from] {
                continue;
            }
            for transition in automaton.transitions(from) {
                if transition.symbol == Some(symbol) {
                    next[transition.to] = true;
                }
            }
        }
        closure(automaton, &mut next);
        current = next;
    }
    (0..count).any(|state| current[state] && automaton.is_accepting(state))
}

fn class(shape: CharClass) -> Syntax {
    Syntax::Class {
        class: shape,
        shown: ClassShown { class: String::new(), set: String::new(), item: String::new() },
    }
}

fn compiled(pattern: &str) -> Automaton {
    match translate(pattern) {
        Ok(automaton) => automaton,
        Err(error) => panic!("{:?}", error),
    }
}

fn assert_fragment(automaton: &Automaton) {
    let count = automaton.states();
    assert!(automaton.start_state().is_some());
    assert!(automaton.start_state().unwrap() < count);
    assert_eq!(automaton.accepting_states().len(), 1);
    assert!(automaton.accepting_states()[0] < count);
    for from in 0..count {
        for transition in automaton.transitions(from) {
            assert!(transition.to < count);
        }
    }
}

#[test]
fn literal_accepts_only_itself() {
    let automaton = compiled("c");
    assert!(accepts(&automaton, "c"));
    assert!(!accepts(&automaton, ""));
    assert!(!accepts(&automaton, "cc"));
    assert!(!accepts(&automaton, "a"));
    assert!(!accepts(&automaton, "ca"));
}

#[test]
fn literal_has_two_states_and_one_transition() {
    let automaton = compiled("c");
    assert_eq!(automaton.states(), 2);
    assert_eq!(automaton.start_state(), Some(0));
    assert_eq!(automaton.accepting_states(), &vec![1]);
    assert_eq!(automaton.transitions(0).len(), 1);
    assert_eq!(automaton.transitions(0)[0].to, 1);
    assert_eq!(automaton.transitions(0)[0].symbol, Some('c'));
    assert!(automaton.transitions(1).is_empty());
}

#[test]
fn alternation_accepts_either_side() {
    let automaton = compiled("a|b");
    assert!(accepts(&automaton, "a"));
    assert!(accepts(&automaton, "b"));
    assert!(!accepts(&automaton, ""));
    assert!(!accepts(&automaton, "ab"));
    assert!(!accepts(&automaton, "c"));
    assert!(!accepts(&automaton, "aa"));
}

#[test]
fn alternation_order_changes_only_the_numbering() {
    let left = compiled("a|b");
    let right = compiled("b|a");
    for word in ["", "a", "b", "ab", "ba", "c"] {
        assert_eq!(accepts(&left, word), accepts(&right, word));
    }
}

#[test]
fn concatenation_accepts_the_sequence() {
    let automaton = compiled("ab");
    assert!(accepts(&automaton, "ab"));
    assert!(!accepts(&automaton, ""));
    assert!(!accepts(&automaton, "a"));
    assert!(!accepts(&automaton, "b"));
    assert!(!accepts(&automaton, "ba"));
    assert!(!accepts(&automaton, "abb"));
}

#[test]
fn star_accepts_any_number() {
    let automaton = compiled("a*");
    assert!(accepts(&automaton, ""));
    assert!(accepts(&automaton, "a"));
    assert!(accepts(&automaton, "aa"));
    assert!(accepts(&automaton, "aaaaaaa"));
    assert!(!accepts(&automaton, "b"));
    assert!(!accepts(&automaton, "ab"));
    assert!(!accepts(&automaton, "aab"));
    assert!(!accepts(&automaton, "ba"));
}

#[test]
fn plus_needs_one() {
    let automaton = compiled("a+");
    assert!(accepts(&automaton, "a"));
    assert!(accepts(&automaton, "aa"));
    assert!(accepts(&automaton, "aaaa"));
    assert!(!accepts(&automaton, ""));
    assert!(!accepts(&automaton, "b"));
    assert!(!accepts(&automaton, "ab"));
}

#[test]
fn question_accepts_none_or_one() {
    let automaton = compiled("a?");
    assert!(accepts(&automaton, ""));
    assert!(accepts(&automaton, "a"));
    assert!(!accepts(&automaton, "aa"));
    assert!(!accepts(&automaton, "b"));
}

#[test]
fn class_range_accepts_each_character_of_it() {
    let automaton = compiled("[a-c]");
    assert!(accepts(&automaton, "a"));
    assert!(accepts(&automaton, "b"));
    assert!(accepts(&automaton, "c"));
    assert!(!accepts(&automaton, "d"));
    assert!(!accepts(&automaton, ""));
    assert!(!accepts(&automaton, "ab"));
    assert_eq!(automaton.states(), 2);
    let symbols: Vec<Option<char>> = automaton.transitions(0).iter().map(|t| t.symbol).collect();
    assert_eq!(symbols, vec![Some('a'), Some('b'), Some('c')]);
}

#[test]
fn class_range_skips_the_surrogates() {
    let tree = class(CharClass::Bracketed {
        negated: false,
        set: CharSet::Item(SetItem::Range(CharRange { start: '\u{D7FE}', end: '\u{E001}' })),
    });
    let automaton = build_tree(&tree).unwrap();
    let symbols: Vec<Option<char>> = automaton.transitions(0).iter().map(|t| t.symbol).collect();
    assert_eq!(
        symbols,
        vec![Some('\u{D7FE}'), Some('\u{D7FF}'), Some('\u{E000}'), Some('\u{E001}')]
    );
}

#[test]
fn reversed_range_accepts_nothing() {
    let tree = class(CharClass::Bracketed {
        negated: false,
        set: CharSet::Item(SetItem::Range(CharRange { start: 'c', end: 'a' })),
    });
    let automaton = build_tree(&tree).unwrap();
    assert_fragment(&automaton);
    assert!(automaton.transitions(0).is_empty());
    assert!(!accepts(&automaton, "a"));
    assert!(!accepts(&automaton, "b"));
    assert!(!accepts(&automaton, ""));
}

#[test]
fn group_star_then_literal() {
    let automaton = compiled("(a|b)*c");
    assert!(accepts(&automaton, "c"));
    assert!(accepts(&automaton, "abc"));
    assert!(accepts(&automaton, "aabbc"));
    assert!(!accepts(&automaton, ""));
    assert!(!accepts(&automaton, "ab"));
    assert!(!accepts(&automaton, "cc"));
}

#[test]
fn group_is_transparent() {
    let plain = compiled("a");
    let grouped = compiled("(a)");
    assert_eq!(plain.states(), grouped.states());
    assert_eq!(plain.start_state(), grouped.start_state());
    assert_eq!(plain.accepting_states(), grouped.accepting_states());
    assert_eq!(plain.transitions(0), grouped.transitions(0));
    assert_eq!(plain.transitions(1), grouped.transitions(1));
}

#[test]
fn every_translation_is_a_fragment() {
    for pattern in ["a", "ab", "a|b", "a*", "a+", "a?", "[a-c]", "(a|b)*c", "((ab)+|[x-z]?)*q", "abcde"] {
        assert_fragment(&compiled(pattern));
    }
}

#[test]
fn empty_sequence_accepts_the_empty_word() {
    let automaton = build_tree(&Syntax::Concat(Vec::new())).unwrap();
    assert_fragment(&automaton);
    assert_eq!(automaton.states(), 1);
    assert!(accepts(&automaton, ""));
    assert!(!accepts(&automaton, "a"));
}

#[test]
fn empty_alternation_accepts_nothing() {
    let automaton = build_tree(&Syntax::Alternation(Vec::new())).unwrap();
    assert_fragment(&automaton);
    assert_eq!(automaton.states(), 2);
    assert!(!accepts(&automaton, ""));
    assert!(!accepts(&automaton, "a"));
}

#[test]
fn star_has_skip_and_repeat_transitions() {
    let automaton = compiled("a*");
    assert_eq!(automaton.states(), 4);
    assert_eq!(automaton.start_state(), Some(0));
    assert_eq!(automaton.accepting_states(), &vec![1]);
    let row = |state: usize| -> Vec<(usize, Option<char>)> {
        automaton.transitions(state).iter().map(|t| (t.to, t.symbol)).collect()
    };
    assert_eq!(row(0), vec![(2, None), (1, None)]);
    assert_eq!(row(1), vec![]);
    assert_eq!(row(2), vec![(3, Some('a'))]);
    assert_eq!(row(3), vec![(1, None), (0, None)]);
}

#[test]
fn plus_has_repeat_but_no_skip() {
    let automaton = compiled("a+");
    let row = |state: usize| -> Vec<(usize, Option<char>)> {
        automaton.transitions(state).iter().map(|t| (t.to, t.symbol)).collect()
    };
    assert_eq!(row(0), vec![(2, None)]);
    assert_eq!(row(1), vec![]);
    assert_eq!(row(3), vec![(1, None), (0, None)]);
}

#[test]
fn question_has_skip_but_no_repeat() {
    let automaton = compiled("a?");
    let row = |state: usize| -> Vec<(usize, Option<char>)> {
        automaton.transitions(state).iter().map(|t| (t.to, t.symbol)).collect()
    };
    assert_eq!(row(0), vec![(2, None), (1, None)]);
    assert_eq!(row(3), vec![(1, None)]);
}

#[test]
fn concatenation_numbers_the_states_from_left_to_right() {
    let automaton = compiled("ab");
    assert_eq!(automaton.states(), 5);
    assert_eq!(automaton.start_state(), Some(0));
    assert_eq!(automaton.accepting_states(), &vec![4]);
    let row = |state: usize| -> Vec<(usize, Option<char>)> {
        automaton.transitions(state).iter().map(|t| (t.to, t.symbol)).collect()
    };
    assert_eq!(row(0), vec![(1, None)]);
    assert_eq!(row(1), vec![(2, Some('a'))]);
    assert_eq!(row(2), vec![(3, None)]);
    assert_eq!(row(3), vec![(4, Some('b'))]);
    assert_eq!(row(4), vec![]);
}

#[test]
fn alternation_wires_each_alternative_to_the_common_ends() {
    let automaton = compiled("a|b");
    assert_eq!(automaton.states(), 6);
    assert_eq!(automaton.start_state(), Some(0));
    assert_eq!(automaton.accepting_states(), &vec![1]);
    let row = |state: usize| -> Vec<(usize, Option<char>)> {
        automaton.transitions(state).iter().map(|t| (t.to, t.symbol)).collect()
    };
    assert_eq!(row(0), vec![(2, None), (4, None)]);
    assert_eq!(row(1), vec![]);
    assert_eq!(row(2), vec![(3, Some('a'))]);
    assert_eq!(row(3), vec![(1, None)]);
    assert_eq!(row(4), vec![(5, Some('b'))]);
    assert_eq!(row(5), vec![(1, None)]);
}

#[test]
fn bounded_repetition_is_unsupported() {
    match translate("a{2,4}") {
        Err(TranslatorError::UnsupportedAst(Syntax::Repetition { kind, greedy, inner, .. })) => {
            assert_eq!(kind, RepeatKind::Range);
            assert!(greedy);
            assert!(matches!(*inner, Syntax::Literal('a')));
        }
        other => panic!("{:?}", other.map(|_| ())),
    }
}

#[test]
fn lazy_repetition_is_unsupported() {
    match translate("a*?") {
        Err(TranslatorError::UnsupportedAst(Syntax::Repetition { kind, greedy, .. })) => {
            assert_eq!(kind, RepeatKind::ZeroOrMore);
            assert!(!greedy);
        }
        other => panic!("{:?}", other.map(|_| ())),
    }
}

#[test]
fn unsupported_kinds_of_node_are_named() {
    assert!(matches!(translate("."), Err(TranslatorError::UnsupportedAst(Syntax::Dot(_)))));
    assert!(matches!(translate("^a"), Err(TranslatorError::UnsupportedAst(Syntax::Assertion(_)))));
    assert!(matches!(translate(""), Err(TranslatorError::UnsupportedAst(Syntax::Empty(_)))));
    assert!(matches!(translate("(?i)a"), Err(TranslatorError::UnsupportedAst(Syntax::Flags(_)))));
}

#[test]
fn unsupported_classes_are_named() {
    assert!(matches!(translate(r"\d"), Err(TranslatorError::UnsupportedClass(CharClass::Perl, _))));
    assert!(matches!(translate(r"\pL"), Err(TranslatorError::UnsupportedClass(CharClass::Unicode, _))));
    assert!(matches!(
        translate("[^a-c]"),
        Err(TranslatorError::UnsupportedClass(CharClass::Bracketed { negated: true, .. }, _))
    ));
    assert!(matches!(
        translate("[a-c&&b-d]"),
        Err(TranslatorError::UnsupportedClassSet(CharSet::BinaryOp, _))
    ));
    assert!(matches!(
        translate("[a]"),
        Err(TranslatorError::UnsupportedClassSetItem(SetItem::Literal('a'), _))
    ));
    assert!(matches!(
        translate("[a-cx]"),
        Err(TranslatorError::UnsupportedClassSetItem(SetItem::Union, _))
    ));
    assert!(matches!(
        translate("[[:alpha:]]"),
        Err(TranslatorError::UnsupportedClassSetItem(SetItem::Ascii, _))
    ));
    assert!(matches!(
        translate(r"[\d]"),
        Err(TranslatorError::UnsupportedClassSetItem(SetItem::Perl, _))
    ));
}

#[test]
fn the_first_unsupported_construct_is_reported() {
    assert!(matches!(translate(r"a.\d"), Err(TranslatorError::UnsupportedAst(Syntax::Dot(_)))));
    assert!(matches!(translate(r"a\d."), Err(TranslatorError::UnsupportedClass(CharClass::Perl, _))));
    assert!(matches!(translate(".{2}"), Err(TranslatorError::UnsupportedAst(Syntax::Dot(_)))));
}

#[test]
fn malformed_pattern_gives_the_parser_error() {
    match translate("(a") {
        Err(TranslatorError::ParserError(error)) => {
            assert_eq!(error.pattern(), "(a");
        }
        other => panic!("{:?}", other.map(|_| ())),
    }
    assert!(matches!(translate("a)"), Err(TranslatorError::ParserError(_))));
    assert!(matches!(translate("[z-a]"), Err(TranslatorError::ParserError(_))));
    assert!(matches!(translate("*"), Err(TranslatorError::ParserError(_))));
}

#[test]
fn escaped_character_is_a_literal() {
    let automaton = compiled(r"\*");
    assert!(accepts(&automaton, "*"));
    assert!(!accepts(&automaton, ""));
    assert!(!accepts(&automaton, "\\*"));
}

#[test]
fn tree_and_pattern_give_the_same_automaton() {
    let tree = Syntax::Concat(vec![
        Syntax::Repetition {
            kind: RepeatKind::ZeroOrMore,
            greedy: true,
            inner: Box::new(Syntax::Group(Box::new(Syntax::Alternation(vec![
                Syntax::Literal('a'),
                Syntax::Literal('b'),
            ])))),
            shown: String::new(),
        },
        Syntax::Literal('c'),
    ]);
    let from_tree = build_tree(&tree).unwrap();
    let from_pattern = compiled("(a|b)*c");
    assert_eq!(from_tree.states(), from_pattern.states());
    assert_eq!(from_tree.start_state(), from_pattern.start_state());
    assert_eq!(from_tree.accepting_states(), from_pattern.accepting_states());
    for state in 0..from_tree.states() {
        assert_eq!(from_tree.transitions(state), from_pattern.transitions(state));
    }
}

#[test]
fn copy_of_a_tree_is_the_same_tree() {
    let tree = Syntax::Alternation(vec![
        Syntax::Concat(vec![Syntax::Literal('x'), Syntax::Dot(String::from("dot"))]),
        Syntax::Repetition {
            kind: RepeatKind::OneOrMore,
            greedy: false,
            inner: Box::new(Syntax::Empty(String::new())),
            shown: String::from("lazy"),
        },
    ]);
    assert_eq!(format!("{:?}", tree.clone()), format!("{:?}", tree));
}

#[test]
fn range_beyond_ascii() {
    let automaton = compiled("[α-γ]");
    assert!(accepts(&automaton, "α"));
    assert!(accepts(&automaton, "β"));
    assert!(accepts(&automaton, "γ"));
    assert!(!accepts(&automaton, "δ"));
    assert!(!accepts(&automaton, "a"));
    assert_eq!(automaton.transitions(0).len(), 3);
}

#[test]
fn three_alternatives() {
    let automaton = compiled("a|b|c");
    assert_eq!(automaton.states(), 8);
    for word in ["a", "b", "c"] {
        assert!(accepts(&automaton, word));
    }
    for word in ["", "d", "ab", "abc"] {
        assert!(!accepts(&automaton, word));
    }
}

#[test]
fn repetition_of_a_repetition() {
    let automaton = compiled("(a*)*");
    assert_fragment(&automaton);
    for word in ["", "a", "aa", "aaaa"] {
        assert!(accepts(&automaton, word));
    }
    assert!(!accepts(&automaton, "b"));
    assert!(!accepts(&automaton, "ab"));
}

#[test]
fn repetition_of_a_choice() {
    let automaton = compiled("(ab|c)+");
    for word in ["ab", "c", "abc", "cab", "ccc", "ababab"] {
        assert!(accepts(&automaton, word));
    }
    for word in ["", "a", "b", "ba", "abb", "ac"] {
        assert!(!accepts(&automaton, word));
    }
}

#[test]
fn optional_parts_in_a_sequence() {
    let automaton = compiled("a?b?c");
    for word in ["c", "ac", "bc", "abc"] {
        assert!(accepts(&automaton, word));
    }
    for word in ["", "a", "b", "ab", "bac", "aac", "abcc"] {
        assert!(!accepts(&automaton, word));
    }
}

#[test]
fn non_capturing_group_is_transparent_too() {
    let automaton = compiled("(?:ab)*");
    for word in ["", "ab", "abab"] {
        assert!(accepts(&automaton, word));
    }
    for word in ["a", "b", "aba"] {
        assert!(!accepts(&automaton, word));
    }
}

#[test]
fn negation_does_not_change_which_part_is_named() {
    assert!(matches!(
        translate("[^a-c&&b-d]"),
        Err(TranslatorError::UnsupportedClassSet(CharSet::BinaryOp, _))
    ));
    assert!(matches!(
        translate("[^a]"),
        Err(TranslatorError::UnsupportedClassSetItem(SetItem::Literal('a'), _))
    ));
    assert!(matches!(
        translate("[^a-cx]"),
        Err(TranslatorError::UnsupportedClassSetItem(SetItem::Union, _))
    ));
    let negated_item = class(CharClass::Bracketed {
        negated: true,
        set: CharSet::Item(SetItem::Perl),
    });
    assert!(matches!(
        build_tree(&negated_item),
        Err(TranslatorError::UnsupportedClassSetItem(SetItem::Perl, _))
    ));
    let negated_range = class(CharClass::Bracketed {
        negated: true,
        set: CharSet::Item(SetItem::Range(CharRange { start: 'a', end: 'c' })),
    });
    assert!(matches!(
        build_tree(&negated_range),
        Err(TranslatorError::UnsupportedClass(CharClass::Bracketed { negated: true, .. }, _))
    ));
}

#[test]
fn error_names_the_part_with_how_it_is_shown() {
    let shown = ClassShown {
        class: String::from("the class"),
        set: String::from("the set"),
        item: String::from("the item"),
    };
    let tree = |shape: CharClass| Syntax::Class { class: shape, shown: shown.clone() };
    assert_eq!(
        build_tree(&tree(CharClass::Perl)).err(),
        Some(TranslatorError::UnsupportedClass(CharClass::Perl, String::from("the class")))
    );
    let binary = CharClass::Bracketed { negated: true, set: CharSet::BinaryOp };
    assert_eq!(
        build_tree(&tree(binary)).err(),
        Some(TranslatorError::UnsupportedClassSet(CharSet::BinaryOp, String::from("the set")))
    );
    let single = CharClass::Bracketed { negated: false, set: CharSet::Item(SetItem::Ascii) };
    assert_eq!(
        build_tree(&tree(single)).err(),
        Some(TranslatorError::UnsupportedClassSetItem(SetItem::Ascii, String::from("the item")))
    );
    let lazy = Syntax::Repetition {
        kind: RepeatKind::ZeroOrMore,
        greedy: false,
        inner: Box::new(Syntax::Literal('a')),
        shown: String::from("a*?"),
    };
    assert_eq!(build_tree(&lazy).err(), Some(TranslatorError::UnsupportedAst(lazy.clone())));
    let counted = Syntax::Repetition {
        kind: RepeatKind::Range,
        greedy: true,
        inner: Box::new(Syntax::Dot(String::from("dot"))),
        shown: String::from("counted"),
    };
    assert_eq!(
        build_tree(&counted).err(),
        Some(TranslatorError::UnsupportedAst(Syntax::Dot(String::from("dot"))))
    );
}
