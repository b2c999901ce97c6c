//! Thompson's construction as a mathematical function from a syntax tree to
//! an automaton, together with the rule that says which trees it covers.

use vstd::prelude::*;
use crate::nfa::{Edge, Nfa};
use crate::syntax::{CharClass, CharRange, CharSet, ClassText, Regex, RepeatKind, SetItem};

verus! {

/// Why a syntax tree cannot be translated.
pub enum Fault {
    /// A node of a kind that is not covered; it holds the node.
    UnsupportedAst(Regex),
    /// A class without brackets, or one that negates a single range; with
    /// how the parser shows the class.
    UnsupportedClass(CharClass, Seq<char>),
    /// A bracketed class that holds more than one item; with how the parser
    /// shows what stands between the brackets.
    UnsupportedClassSet(CharSet, Seq<char>),
    /// A bracketed class whose item is not a range; with how the parser
    /// shows the item.
    UnsupportedClassSetItem(SetItem, Seq<char>),
    /// The pattern is no regular expression at all; it holds the message with
    /// which the parser says so.
    ParserError(Seq<char>),
}

impl Nfa {
    /// The start state of an automaton that has one.
    pub open spec fn start_state(self) -> nat {
        self.start->0
    }

    /// The accepting state of an automaton that has exactly one.
    pub open spec fn accepting_state(self) -> nat {
        self.accepting.choose()
    }
}

/// Whether `code` is the number of a character.
pub open spec fn is_char_code(code: nat) -> bool {
    code <= 0xD7FF || 0xE000 <= code <= 0x10FFFF
}

/// The characters whose numbers lie in `low..high`, in ascending order.
pub open spec fn chars_between(low: nat, high: nat) -> Seq<char>
    decreases high - low,
{
    if low >= high {
        Seq::empty()
    } else if is_char_code((high - 1) as nat) {
        chars_between(low, (high - 1) as nat).push((high - 1) as char)
    } else {
        chars_between(low, (high - 1) as nat)
    }
}

/// The characters of a range, both ends included, in ascending order. A range
/// whose end lies before its start holds none.
pub open spec fn range_atoms(range: CharRange) -> Seq<char> {
    chars_between(range.start as nat, range.end as nat + 1)
}

/// The range that a class stands for, if it is a bracketed, unnegated class
/// of a single range.
pub open spec fn class_range(class: CharClass) -> Option<CharRange> {
    match class {
        CharClass::Bracketed { negated: false, set: CharSet::Item(SetItem::Range(range)) } => Some(
            range,
        ),
        _ => None,
    }
}

/// Why a class that stands for no range is not covered. What stands between
/// the brackets decides first: a set that is no single item is named as a
/// set, and an item that is no range as an item, negated or not. The class
/// itself is named where it has no brackets, or where it negates a single
/// range. Each is named with how the parser shows it.
pub open spec fn class_fault(class: CharClass, shown: ClassText) -> Fault {
    match class {
        CharClass::Bracketed { negated, set } => match set {
            CharSet::Item(item) => match item {
                SetItem::Range(_) => Fault::UnsupportedClass(class, shown.class),
                _ => Fault::UnsupportedClassSetItem(item, shown.item),
            },
            _ => Fault::UnsupportedClassSet(set, shown.set),
        },
        _ => Fault::UnsupportedClass(class, shown.class),
    }
}

/// The first construct of `regex` that is not covered, in the order in which
/// the translation meets them: the children of a node from left to right, and
/// the inner expression of a repetition before its operator.
pub open spec fn defect(regex: Regex) -> Option<Fault>
    decreases regex, 0nat,
{
    match regex {
        Regex::Empty(_) | Regex::Flags(_) | Regex::Dot(_) | Regex::Assertion(_) => Some(
            Fault::UnsupportedAst(regex),
        ),
        Regex::Literal(_) => None,
        Regex::Class { class, shown } => match class_range(class) {
            Some(_) => None,
            None => Some(class_fault(class, shown)),
        },
        Regex::Repetition { kind, greedy, inner, shown } => match defect(*inner) {
            Some(fault) => Some(fault),
            None => if kind == RepeatKind::Range || !greedy {
                Some(Fault::UnsupportedAst(regex))
            } else {
                None
            },
        },
        Regex::Group(inner) => defect(*inner),
        Regex::Alternation(children) => first_defect(children, 0),
        Regex::Concat(children) => first_defect(children, 0),
    }
}

/// The defect of the first of `children[from..]` that has one.
pub open spec fn first_defect(children: Seq<Regex>, from: nat) -> Option<Fault>
    decreases children, children.len() - from,
{
    if from >= children.len() {
        None
    } else {
        match defect(children[from as int]) {
            Some(fault) => Some(fault),
            None => first_defect(children, from + 1),
        }
    }
}

/// Whether the translation covers all of `regex`.
pub open spec fn supported(regex: Regex) -> bool {
    defect(regex) is None
}

/// Two states, the first the start and the second accepting, and from the
/// first to the second one edge for each of `atoms`, in their order.
pub open spec fn literal(atoms: Seq<char>) -> Nfa {
    Nfa {
        rows: seq![atoms.map_values(|c: char| Edge { to: 1, symbol: Some(c) }), Seq::empty()],
        start: Some(0),
        accepting: set![1],
    }
}

/// `inner` between two fresh states, 0 for the start and 1 for the end: an
/// edge on no input from the start into `inner` and one from the accepting
/// state of `inner` to the end; to skip `inner`, one from the start to the
/// end; to repeat it, one from the accepting state of `inner` back to the
/// start.
pub open spec fn repetition(kind: RepeatKind, inner: Nfa) -> Nfa {
    let inner_start = inner.start_state() + 2;
    let inner_end = inner.accepting_state() + 2;
    let wired = Nfa::empty().add_state().add_state().merge(inner).add_transition(
        0,
        inner_start,
        None,
    ).add_transition(inner_end, 1, None);
    let looped = match kind {
        RepeatKind::ZeroOrOne => wired.add_transition(0, 1, None),
        RepeatKind::ZeroOrMore => wired.add_transition(0, 1, None).add_transition(inner_end, 0, None),
        RepeatKind::OneOrMore => wired.add_transition(inner_end, 0, None),
        RepeatKind::Range => wired,
    };
    looped.set_start_state(0).clear_accepting().set_accepting(1, true)
}

/// One more alternative for an automaton whose states 0 and 1 are the common
/// start and end: `child` merged in, entered from 0 and left towards 1.
pub open spec fn with_alternative(acc: Nfa, child: Nfa) -> Nfa {
    let offset = acc.states();
    acc.merge(child).add_transition(0, child.start_state() + offset, None).add_transition(
        child.accepting_state() + offset,
        1,
        None,
    )
}

/// One more expression behind an automaton that ends in its accepting state:
/// `child` merged in, entered from that state, and its own accepting state
/// the only one that is left.
pub open spec fn followed_by(acc: Nfa, child: Nfa) -> Nfa {
    let offset = acc.states();
    acc.merge(child).add_transition(
        acc.accepting_state(),
        child.start_state() + offset,
        None,
    ).clear_accepting().set_accepting(child.accepting_state() + offset, true)
}

/// The automaton of a syntax tree by Thompson's construction. Where the tree
/// holds a construct that is not covered, the result means nothing.
pub open spec fn thompson(regex: Regex) -> Nfa
    decreases regex, 0nat,
{
    match regex {
        Regex::Empty(_) | Regex::Flags(_) | Regex::Dot(_) | Regex::Assertion(_) => Nfa::empty(),
        Regex::Literal(c) => literal(seq![c]),
        Regex::Class { class, shown } => match class_range(class) {
            Some(range) => literal(range_atoms(range)),
            None => Nfa::empty(),
        },
        Regex::Repetition { kind, greedy, inner, shown } => repetition(kind, thompson(*inner)),
        Regex::Group(inner) => thompson(*inner),
        Regex::Alternation(children) => alternatives(children, children.len()).set_start_state(
            0,
        ).clear_accepting().set_accepting(1, true),
        Regex::Concat(children) => sequence(children, children.len()),
    }
}

/// The common start and end of an alternation with the first `count` of
/// `children` between them.
pub open spec fn alternatives(children: Seq<Regex>, count: nat) -> Nfa
    decreases children, count,
{
    if count == 0 || count > children.len() {
        Nfa::empty().add_state().add_state()
    } else {
        with_alternative(
            alternatives(children, (count - 1) as nat),
            thompson(children[count - 1]),
        )
    }
}

/// The first `count` of `children` one after another. With none of them it is
/// a single state, start and accepting at once.
pub open spec fn sequence(children: Seq<Regex>, count: nat) -> Nfa
    decreases children, count,
{
    if count == 0 || count > children.len() {
        Nfa::empty().add_state().set_start_state(0).set_accepting(0, true)
    } else {
        followed_by(sequence(children, (count - 1) as nat), thompson(children[count - 1]))
    }
}

} // verus!
