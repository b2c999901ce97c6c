//! The translator: from a syntax tree to an automaton, one builder for each
//! kind of node.

use vstd::prelude::*;
use vstd::string::StringExecFns;
use crate::automaton::Automaton;
use crate::correctness::{lemma_chars_between_distinct, theorem_thompson_recognizes};
use crate::fragment::{lemma_accepting_state, lemma_fragment_ends};
use crate::nfa::Nfa;
use crate::parser::{lemma_rendering, parse_pattern, parsed, rendering, renders};
use crate::syntax::{
    CharClass, CharRange, CharSet, ClassShown, Regex, RepeatKind, SetItem, Syntax,
};
use crate::thompson::{
    alternatives, chars_between, defect, first_defect, followed_by, is_char_code, literal,
    range_atoms, repetition, sequence, supported, thompson, with_alternative, Fault,
};

verus! {

/// Why a translation failed. Every construct that is not covered is named
/// with how the parser shows it: a node holds that itself, and a class, what
/// stands between its brackets or an item there has it beside it.
#[derive(Debug, PartialEq, Eq)]
pub enum TranslatorError {
    /// A node of a kind that is not covered.
    UnsupportedAst(Syntax),
    /// A class without brackets, or one that negates a single range.
    UnsupportedClass(CharClass, String),
    /// A bracketed class that holds more than one item.
    UnsupportedClassSet(CharSet, String),
    /// A bracketed class whose item is not a range.
    UnsupportedClassSetItem(SetItem, String),
    /// The pattern is no regular expression; the parser's error says why.
    ParserError(regex_syntax::ast::Error),
}

impl View for TranslatorError {
    type V = Fault;

    open spec fn view(&self) -> Fault {
        match self {
            TranslatorError::UnsupportedAst(node) => Fault::UnsupportedAst(node@),
            TranslatorError::UnsupportedClass(class, shown) => Fault::UnsupportedClass(*class, shown@),
            TranslatorError::UnsupportedClassSet(set, shown) => Fault::UnsupportedClassSet(
                *set,
                shown@,
            ),
            TranslatorError::UnsupportedClassSetItem(item, shown) => Fault::UnsupportedClassSetItem(
                *item,
                shown@,
            ),
            TranslatorError::ParserError(error) => Fault::ParserError(rendering(*error)),
        }
    }
}

impl TranslatorError {
    /// Whether `text` is the message of this error: a common opening, then
    /// for a construct that is not covered how the parser shows it and what
    /// kind of construct it is, and for a pattern that the parser rejected
    /// the parser's own message.
    pub open spec fn reports(&self, text: Seq<char>) -> bool {
        let opening = "error when translating regular expression: "@;
        match self {
            TranslatorError::UnsupportedAst(ast) => text == opening + ast@.shown()
                + " is not a supported ast kind (yet)"@,
            TranslatorError::UnsupportedClass(_, shown) => text == opening + shown@
                + " is not a supported class kind (yet)"@,
            TranslatorError::UnsupportedClassSet(_, shown) => text == opening + shown@
                + " is not a supported class set kind (yet)"@,
            TranslatorError::UnsupportedClassSetItem(_, shown) => text == opening + shown@
                + " is not a supported class set item kind (yet)"@,
            TranslatorError::ParserError(parser_error) => exists|detail: String|
                text == opening + detail@ && vstd::string::to_string_from_display_ensures::<
                    regex_syntax::ast::Error,
                >(parser_error, detail),
        }
    }

    /// The message of this error.
    pub fn message(&self) -> (text: String)
        ensures
            self.reports(text@),
    {
        let mut text = String::from_str("error when translating regular expression: ");
        match self {
            TranslatorError::UnsupportedAst(ast) => {
                text.append(ast.shown());
                text.append(" is not a supported ast kind (yet)");
            },
            TranslatorError::UnsupportedClass(_, shown) => {
                text.append(shown.as_str());
                text.append(" is not a supported class kind (yet)");
            },
            TranslatorError::UnsupportedClassSet(_, shown) => {
                text.append(shown.as_str());
                text.append(" is not a supported class set kind (yet)");
            },
            TranslatorError::UnsupportedClassSetItem(_, shown) => {
                text.append(shown.as_str());
                text.append(" is not a supported class set item kind (yet)");
            },
            TranslatorError::ParserError(parser_error) => {
                let detail = parser_error.to_string();
                text.append(detail.as_str());
            },
        }
        text
    }
}

/// What a translation owes for `regex`: the automaton of Thompson's
/// construction where the whole tree is covered, and otherwise the first
/// construct that is not.
pub open spec fn translated(regex: Regex, result: Result<Automaton, TranslatorError>) -> bool {
    match result {
        Ok(automaton) => {
            &&& supported(regex)
            &&& automaton.wf()
            &&& automaton@ == thompson(regex)
            &&& automaton@.is_fragment()
        },
        Err(error) => defect(regex) == Some(error@),
    }
}

/// Builds the automaton of a set of characters: a start state, an accepting
/// state, and between them one transition for each of `atoms`, which holds
/// each character of the set once.
pub fn build_literal(atoms: Vec<char>) -> (result: Result<Automaton, TranslatorError>)
    requires
        atoms@.no_duplicates(),
    ensures
        result matches Ok(automaton) && automaton.wf() && automaton@ == literal(atoms@)
            && automaton@.is_fragment(),
{
    let mut literal_automaton = Automaton::new();
    let start_state = literal_automaton.add_state();
    let end_state = literal_automaton.add_state();
    literal_automaton.set_accepting(end_state, true);
    literal_automaton.set_start_state(start_state);
    proof {
        assert(literal_automaton@.rows =~~= literal(atoms@.take(0)).rows);
    }
    let mut i: usize = 0;
    while i < atoms.len()
        invariant
            i <= atoms@.len(),
            start_state == 0,
            end_state == 1,
            literal_automaton.wf(),
            literal_automaton@ == literal(atoms@.take(i as int)),
        decreases atoms@.len() - i,
    {
        literal_automaton.add_transition(start_state, end_state, Some(atoms[i]));
        proof {
            let before = literal(atoms@.take(i as int));
            let after = literal(atoms@.take(i + 1));
            assert(before.add_transition(0, 1, Some(atoms@[i as int])).rows =~~= after.rows);
        }
        i += 1;
    }
    proof {
        assert(atoms@.take(i as int) =~= atoms@);
    }
    Ok(literal_automaton)
}

/// `char::from_u32` of the standard library: the character with the given
/// number, or nothing where the number is a surrogate or lies beyond the last
/// character.
pub assume_specification[ char::from_u32 ](i: u32) -> (c: Option<char>)
    ensures
        c == if is_char_code(i as nat) {
            Some(i as char)
        } else {
            None
        },
;

/// Builds the automaton of a range such as `a-z`: that of the set of all
/// characters from its start to its end, both included.
pub fn build_class_set_range(class_set_range: &CharRange) -> (result: Result<
    Automaton,
    TranslatorError,
>)
    ensures
        result matches Ok(automaton) && automaton.wf() && automaton@ == literal(
            range_atoms(*class_set_range),
        ) && automaton@.is_fragment(),
{
    let start_atom = class_set_range.start as u32;
    let end_atom = class_set_range.end as u32;
    let mut atoms: Vec<char> = Vec::new();
    let mut code: u32 = start_atom;
    while code <= end_atom
        invariant
            end_atom <= 0x10FFFF,
            start_atom <= code,
            code <= end_atom + 1 || code == start_atom,
            atoms@ == chars_between(start_atom as nat, code as nat),
        decreases end_atom + 1 - code,
    {
        match char::from_u32(code) {
            Some(atom) => {
                atoms.push(atom);
            },
            None => {},
        }
        code += 1;
    }
    proof {
        if end_atom < start_atom {
            assert(chars_between(start_atom as nat, end_atom as nat + 1) == Seq::<char>::empty());
        }
        lemma_chars_between_distinct(start_atom as nat, code as nat);
    }
    build_literal(atoms)
}

/// Translates a syntax tree into its automaton, or names the first construct
/// in it that is not covered.
pub fn build_tree(ast_tree: &Syntax) -> (result: Result<Automaton, TranslatorError>)
    ensures
        translated(ast_tree@, result),
        result matches Ok(automaton) ==> automaton@.recognizes(ast_tree@),
    decreases ast_tree, 0nat,
{
    let result = match ast_tree {
        Syntax::Concat(asts) => build_concatenation(asts),
        Syntax::Repetition { kind, greedy, inner, shown } => build_repetition(
            *kind,
            *greedy,
            inner,
            shown,
        ),
        Syntax::Literal(c) => {
            let mut atoms: Vec<char> = Vec::new();
            atoms.push(*c);
            build_literal(atoms)
        },
        Syntax::Alternation(asts) => build_alternation(asts),
        Syntax::Group(inner) => build_tree(inner),
        Syntax::Class { class, shown } => build_class(class, shown),
        Syntax::Empty(shown) => Err(TranslatorError::UnsupportedAst(Syntax::Empty(shown.clone()))),
        Syntax::Flags(shown) => Err(TranslatorError::UnsupportedAst(Syntax::Flags(shown.clone()))),
        Syntax::Dot(shown) => Err(TranslatorError::UnsupportedAst(Syntax::Dot(shown.clone()))),
        Syntax::Assertion(shown) => Err(
            TranslatorError::UnsupportedAst(Syntax::Assertion(shown.clone())),
        ),
    };
    proof {
        if result is Ok {
            theorem_thompson_recognizes(ast_tree@);
        }
    }
    result
}

/// Translates a character class: a bracketed, unnegated class of a single
/// range becomes the automaton of that range, and every other class is named
/// as not covered. A set between the brackets that is no single item is
/// named as a set, and an item that is no range as an item, whether the class
/// is negated or not; the class itself is named where it has no brackets or
/// negates a single range. Each is named with how the parser shows it,
/// which `shown` holds.
pub fn build_class(class_ast: &CharClass, shown: &ClassShown) -> (result: Result<
    Automaton,
    TranslatorError,
>)
    ensures
        translated(Regex::Class { class: *class_ast, shown: shown@ }, result),
{
    match class_ast {
        CharClass::Bracketed { negated, set } => match set {
            CharSet::Item(item) => match item {
                SetItem::Range(class_set_range) => if *negated {
                    Err(TranslatorError::UnsupportedClass(*class_ast, shown.class.clone()))
                } else {
                    build_class_set_range(class_set_range)
                },
                unsupported => Err(
                    TranslatorError::UnsupportedClassSetItem(*unsupported, shown.item.clone()),
                ),
            },
            unsupported => Err(TranslatorError::UnsupportedClassSet(*unsupported, shown.set.clone())),
        },
        unsupported => Err(TranslatorError::UnsupportedClass(*unsupported, shown.class.clone())),
    }
}

/// Builds the automaton of expressions that follow one another: each is
/// merged in behind the one before and entered from the state in which that
/// one ended, and the last one's accepting state is the accepting state of
/// the whole.
pub fn build_concatenation(asts: &Vec<Syntax>) -> (result: Result<Automaton, TranslatorError>)
    ensures
        translated(Regex::Concat(Syntax::regexes(asts@)), result),
    decreases asts, 1nat,
{
    let ghost children = Syntax::regexes(asts@);
    let mut concat_automaton = Automaton::new();
    let concat_start_state = concat_automaton.add_state();
    concat_automaton.set_start_state(concat_start_state);
    concat_automaton.set_accepting(concat_start_state, true);

    let mut concat_end_state = concat_start_state;
    proof {
        Nfa::empty().lemma_add_state();
    }

    let mut i: usize = 0;
    while i < asts.len()
        invariant
            i <= asts@.len(),
            children == Syntax::regexes(asts@),
            concat_automaton.wf(),
            concat_automaton@ == sequence(children, i as nat),
            concat_automaton@.is_fragment(),
            concat_automaton@.accepting == set![concat_end_state as nat],
            first_defect(children, i as nat) == first_defect(children, 0),
        decreases asts@.len() - i,
    {
        let append_automaton = match build_tree(&asts[i]) {
            Ok(automaton) => automaton,
            Err(error) => {
                return Err(error);
            },
        };
        let ghost acc = concat_automaton@;
        let ghost child = append_automaton@;
        proof {
            lemma_fragment_ends(acc);
            lemma_fragment_ends(child);
            lemma_accepting_state(acc, concat_end_state as nat);
        }
        let append_start_state = append_automaton.start_state().unwrap();
        let append_end_state = append_automaton.accepting_state();
        proof {
            lemma_accepting_state(child, append_end_state as nat);
        }
        let concat_append_offset = concat_automaton.states();
        concat_automaton.add_states_and_transitions(append_automaton);
        proof {
            concat_automaton.lemma_states_fit();
        }

        concat_automaton.add_transition(
            concat_end_state,
            append_start_state + concat_append_offset,
            None,
        );

        concat_end_state = append_end_state + concat_append_offset;
        concat_automaton.clear_accepting();
        concat_automaton.set_accepting(concat_end_state, true);
        proof {
            assert(concat_automaton@ == followed_by(acc, child));
        }
        i += 1;
    }

    Ok(concat_automaton)
}

/// Builds the automaton of an expression under `?`, `+` or `*`: the inner
/// automaton between a new start and a new end state, with the transitions
/// that let a match skip it, for `?` and `*`, or go through it again, for `+`
/// and `*`. A counted or a lazy repetition is named as not covered.
pub fn build_repetition(kind: RepeatKind, greedy: bool, inner: &Syntax, shown: &String) -> (result:
    Result<Automaton, TranslatorError>)
    ensures
        translated(
            Regex::Repetition { kind, greedy, inner: Box::new(inner@), shown: shown@ },
            result,
        ),
    decreases inner, 1nat,
{
    let mut repetition_automaton = Automaton::new();
    let repetition_start_state = repetition_automaton.add_state();
    let repetition_end_state = repetition_automaton.add_state();
    let repetition_to_inner_offset = repetition_automaton.states();

    let inner_automaton = match build_tree(inner) {
        Ok(automaton) => automaton,
        Err(error) => {
            return Err(error);
        },
    };
    let supported_operator = match kind {
        RepeatKind::Range => false,
        _ => greedy,
    };
    if !supported_operator {
        return Err(
            TranslatorError::UnsupportedAst(
                Syntax::Repetition {
                    kind,
                    greedy,
                    inner: Box::new(inner.clone()),
                    shown: shown.clone(),
                },
            ),
        );
    }
    let ghost child = inner_automaton@;
    proof {
        lemma_fragment_ends(child);
        Nfa::empty().lemma_add_state();
        Nfa::empty().add_state().lemma_add_state();
    }
    let inner_automaton_start_state = inner_automaton.start_state().unwrap();
    let inner_automaton_end_state = inner_automaton.accepting_state();
    proof {
        lemma_accepting_state(child, inner_automaton_end_state as nat);
    }
    repetition_automaton.add_states_and_transitions(inner_automaton);
    proof {
        repetition_automaton.lemma_states_fit();
    }

    repetition_automaton.add_transition(
        repetition_start_state,
        inner_automaton_start_state + repetition_to_inner_offset,
        None,
    );

    repetition_automaton.add_transition(
        inner_automaton_end_state + repetition_to_inner_offset,
        repetition_end_state,
        None,
    );

    match kind {
        RepeatKind::OneOrMore => {
            repetition_automaton.add_transition(
                inner_automaton_end_state + repetition_to_inner_offset,
                repetition_start_state,
                None,
            );
        },
        RepeatKind::ZeroOrMore => {
            repetition_automaton.add_transition(repetition_start_state, repetition_end_state, None);
            repetition_automaton.add_transition(
                inner_automaton_end_state + repetition_to_inner_offset,
                repetition_start_state,
                None,
            );
        },
        RepeatKind::ZeroOrOne => {
            repetition_automaton.add_transition(repetition_start_state, repetition_end_state, None);
        },
        RepeatKind::Range => {},
    }

    repetition_automaton.set_start_state(repetition_start_state);
    repetition_automaton.clear_accepting();
    repetition_automaton.set_accepting(repetition_end_state, true);
    proof {
        assert(repetition_automaton@ == repetition(kind, child));
    }

    Ok(repetition_automaton)
}

/// Builds the automaton of a choice: a new start and a new end state, and
/// each alternative merged in between them, entered from the start and left
/// towards the end.
pub fn build_alternation(asts: &Vec<Syntax>) -> (result: Result<Automaton, TranslatorError>)
    ensures
        translated(Regex::Alternation(Syntax::regexes(asts@)), result),
    decreases asts, 1nat,
{
    let ghost children = Syntax::regexes(asts@);
    let mut alternation_automaton = Automaton::new();
    let alternation_automaton_start_state = alternation_automaton.add_state();
    let alternation_automaton_end_state = alternation_automaton.add_state();

    let mut i: usize = 0;
    while i < asts.len()
        invariant
            i <= asts@.len(),
            children == Syntax::regexes(asts@),
            alternation_automaton_start_state == 0,
            alternation_automaton_end_state == 1,
            alternation_automaton.wf(),
            alternation_automaton@ == alternatives(children, i as nat),
            alternation_automaton@.states() >= 2,
            first_defect(children, i as nat) == first_defect(children, 0),
        decreases asts@.len() - i,
    {
        let alternative_automaton = match build_tree(&asts[i]) {
            Ok(automaton) => automaton,
            Err(error) => {
                return Err(error);
            },
        };
        let ghost acc = alternation_automaton@;
        let ghost child = alternative_automaton@;
        proof {
            lemma_fragment_ends(child);
        }

        let alternative_automaton_start_state = alternative_automaton.start_state().unwrap();
        let alternative_automaton_end_state = alternative_automaton.accepting_state();
        proof {
            lemma_accepting_state(child, alternative_automaton_end_state as nat);
        }
        let alternation_to_alternative_offset = alternation_automaton.states();
        alternation_automaton.add_states_and_transitions(alternative_automaton);
        proof {
            alternation_automaton.lemma_states_fit();
        }

        alternation_automaton.add_transition(
            alternation_automaton_start_state,
            alternative_automaton_start_state + alternation_to_alternative_offset,
            None,
        );

        alternation_automaton.add_transition(
            alternative_automaton_end_state + alternation_to_alternative_offset,
            alternation_automaton_end_state,
            None,
        );
        proof {
            assert(alternation_automaton@ == with_alternative(acc, child));
        }
        i += 1;
    }

    alternation_automaton.set_start_state(alternation_automaton_start_state);
    alternation_automaton.clear_accepting();
    alternation_automaton.set_accepting(alternation_automaton_end_state, true);
    proof {
        alternation_automaton.lemma_wf_view();
    }

    Ok(alternation_automaton)
}

/// Translates a pattern: the parser reads it, and the tree that it yields is
/// translated. A pattern that the parser rejects gives the parser's error,
/// the one with the message that the parser has for this pattern.
pub fn translate(s: &str) -> (result: Result<Automaton, TranslatorError>)
    ensures
        match parsed(s@) {
            Ok(regex) => translated(regex, result) && (result matches Ok(automaton)
                ==> automaton@.recognizes(regex)),
            Err(text) => result matches Err(TranslatorError::ParserError(error)) && renders(
                error,
                text,
            ) && result->Err_0@ == Fault::ParserError(text),
        },
{
    match parse_pattern(s) {
        Ok(ast) => build_tree(&ast),
        Err(err) => {
            proof {
                lemma_rendering(err, parsed(s@)->Err_0);
            }
            Err(TranslatorError::ParserError(err))
        },
    }
}

/// The message of the error for a pattern that the parser rejected is the
/// common opening followed by the parser's message for that pattern.
pub proof fn lemma_message_of_rejection(error: TranslatorError, text: Seq<char>, message: Seq<char>)
    requires
        error matches TranslatorError::ParserError(inner) && renders(inner, text),
        error.reports(message),
    ensures
        message == "error when translating regular expression: "@ + text,
{
}

} // verus!
