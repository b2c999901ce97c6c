//! The syntax tree of a regular expression, as the translator reads it.

use vstd::prelude::*;

verus! {

/// The operator of a repetition.
#[derive(Clone, Copy, Debug, PartialEq, Eq, Structural)]
pub enum RepeatKind {
    /// `?`
    ZeroOrOne,
    /// `*`
    ZeroOrMore,
    /// `+`
    OneOrMore,
    /// A counted repetition such as `{2,4}`.
    Range,
}

/// The two endpoints of a range inside a bracketed class, such as `a-z`.
#[derive(Clone, Copy, Debug, PartialEq, Eq, Structural)]
pub struct CharRange {
    pub start: char,
    pub end: char,
}

/// A single item of a bracketed class.
#[derive(Clone, Copy, Debug, PartialEq, Eq, Structural)]
pub enum SetItem {
    /// Nothing at all, as in `[]`.
    Empty,
    /// A single character, as in `[a]`.
    Literal(char),
    /// A range of characters, as in `[a-z]`.
    Range(CharRange),
    /// A named ASCII class, as in `[[:alpha:]]`.
    Ascii,
    /// A Unicode class, as in `[\pL]`.
    Unicode,
    /// A Perl class, as in `[\d]`.
    Perl,
    /// A nested bracketed class.
    Bracketed,
    /// Several items side by side, as in `[a-cx]`.
    Union,
}

/// What stands between the brackets of a class.
#[derive(Clone, Copy, Debug, PartialEq, Eq, Structural)]
pub enum CharSet {
    /// One item.
    Item(SetItem),
    /// Two sets joined by an operator, as in `[a-z&&b-y]`.
    BinaryOp,
}

/// A character class.
#[derive(Clone, Copy, Debug, PartialEq, Eq, Structural)]
pub enum CharClass {
    /// A Unicode class such as `\pL`.
    Unicode,
    /// A Perl class such as `\d`.
    Perl,
    /// A bracketed class such as `[a-z]` or, negated, `[^a-z]`.
    Bracketed { negated: bool, set: CharSet },
}

/// How the parser shows a class and the parts of it, for a message about
/// one of them: the class, what stands between its brackets, and the single
/// item there. A part that the class does not have is shown as nothing.
#[derive(Debug, PartialEq, Eq)]
pub struct ClassShown {
    pub class: String,
    pub set: String,
    pub item: String,
}

/// The mathematical form of a `ClassShown`.
pub struct ClassText {
    pub class: Seq<char>,
    pub set: Seq<char>,
    pub item: Seq<char>,
}

impl View for ClassShown {
    type V = ClassText;

    open spec fn view(&self) -> ClassText {
        ClassText { class: self.class@, set: self.set@, item: self.item@ }
    }
}

impl Clone for ClassShown {
    fn clone(&self) -> (copy: ClassShown)
        ensures
            copy@ == self@,
    {
        ClassShown { class: self.class.clone(), set: self.set.clone(), item: self.item.clone() }
    }
}

/// A node of the syntax tree. A node of a kind that the translation may have
/// to name as not covered holds, beside its shape, how the parser shows it.
#[derive(Debug, PartialEq, Eq)]
pub enum Syntax {
    /// The empty expression.
    Empty(String),
    /// A group of flags, as in `(?i)`.
    Flags(String),
    /// The wildcard `.`.
    Dot(String),
    /// An assertion such as `^`, `$` or `\b`.
    Assertion(String),
    /// A single character.
    Literal(char),
    /// A character class.
    Class { class: CharClass, shown: ClassShown },
    /// An expression under a repetition operator.
    Repetition { kind: RepeatKind, greedy: bool, inner: Box<Syntax>, shown: String },
    /// A parenthesised expression.
    Group(Box<Syntax>),
    /// A choice between expressions.
    Alternation(Vec<Syntax>),
    /// Expressions one after another.
    Concat(Vec<Syntax>),
}

/// The mathematical form of a syntax tree: the same shape, with sequences for
/// the lists of children.
pub enum Regex {
    /// The empty expression.
    Empty(Seq<char>),
    /// A group of flags.
    Flags(Seq<char>),
    /// The wildcard.
    Dot(Seq<char>),
    /// An assertion.
    Assertion(Seq<char>),
    /// A single character.
    Literal(char),
    /// A character class.
    Class { class: CharClass, shown: ClassText },
    /// An expression under a repetition operator.
    Repetition { kind: RepeatKind, greedy: bool, inner: Box<Regex>, shown: Seq<char> },
    /// A parenthesised expression.
    Group(Box<Regex>),
    /// A choice between expressions.
    Alternation(Seq<Regex>),
    /// Expressions one after another.
    Concat(Seq<Regex>),
}

impl Regex {
    /// How the parser shows this node, where the node holds that.
    pub open spec fn shown(self) -> Seq<char> {
        match self {
            Regex::Empty(shown) | Regex::Flags(shown) | Regex::Dot(shown) | Regex::Assertion(
                shown,
            ) => shown,
            Regex::Repetition { shown, .. } => shown,
            _ => Seq::empty(),
        }
    }
}

impl Syntax {
    /// How the parser shows this node, where the node holds that, and else
    /// nothing.
    pub fn shown(&self) -> (text: &str)
        ensures
            text@ == self@.shown(),
    {
        match self {
            Syntax::Empty(shown) | Syntax::Flags(shown) | Syntax::Dot(shown) | Syntax::Assertion(
                shown,
            ) => shown.as_str(),
            Syntax::Repetition { shown, .. } => shown.as_str(),
            _ => {
                proof {
                    reveal_strlit("");
                }
                ""
            },
        }
    }

    /// The mathematical form of this tree.
    pub open spec fn regex(self) -> Regex
        decreases self, 1nat,
    {
        match self {
            Syntax::Empty(shown) => Regex::Empty(shown@),
            Syntax::Flags(shown) => Regex::Flags(shown@),
            Syntax::Dot(shown) => Regex::Dot(shown@),
            Syntax::Assertion(shown) => Regex::Assertion(shown@),
            Syntax::Literal(c) => Regex::Literal(c),
            Syntax::Class { class, shown } => Regex::Class { class, shown: shown@ },
            Syntax::Repetition { kind, greedy, inner, shown } => Regex::Repetition {
                kind,
                greedy,
                inner: Box::new(inner.regex()),
                shown: shown@,
            },
            Syntax::Group(inner) => Regex::Group(Box::new(inner.regex())),
            Syntax::Alternation(trees) => Regex::Alternation(Syntax::regexes(trees@)),
            Syntax::Concat(trees) => Regex::Concat(Syntax::regexes(trees@)),
        }
    }

    /// The mathematical forms of a list of trees, in order.
    pub open spec fn regexes(trees: Seq<Syntax>) -> Seq<Regex>
        decreases trees, 0nat,
    {
        Seq::new(
            trees.len(),
            |i: int|
                if 0 <= i < trees.len() {
                    trees[i].regex()
                } else {
                    Regex::Literal(' ')
                },
        )
    }
}

impl View for Syntax {
    type V = Regex;

    open spec fn view(&self) -> Regex {
        self.regex()
    }
}

impl Clone for Syntax {
    fn clone(&self) -> (copy: Syntax)
        ensures
            copy@ == self@,
        decreases self,
    {
        match self {
            Syntax::Empty(shown) => Syntax::Empty(shown.clone()),
            Syntax::Flags(shown) => Syntax::Flags(shown.clone()),
            Syntax::Dot(shown) => Syntax::Dot(shown.clone()),
            Syntax::Assertion(shown) => Syntax::Assertion(shown.clone()),
            Syntax::Literal(c) => Syntax::Literal(*c),
            Syntax::Class { class, shown } => Syntax::Class { class: *class, shown: shown.clone() },
            Syntax::Repetition { kind, greedy, inner, shown } => Syntax::Repetition {
                kind: *kind,
                greedy: *greedy,
                inner: Box::new((&**inner).clone()),
                shown: shown.clone(),
            },
            Syntax::Group(inner) => Syntax::Group(Box::new((&**inner).clone())),
            Syntax::Alternation(trees) => Syntax::Alternation(clone_all(trees)),
            Syntax::Concat(trees) => Syntax::Concat(clone_all(trees)),
        }
    }
}

/// Copies a list of syntax trees.
fn clone_all(trees: &Vec<Syntax>) -> (copies: Vec<Syntax>)
    ensures
        Syntax::regexes(copies@) == Syntax::regexes(trees@),
    decreases trees,
{
    let mut copies: Vec<Syntax> = Vec::new();
    let mut i: usize = 0;
    while i < trees.len()
        invariant
            i <= trees.len(),
            copies.len() == i,
            forall|j: int| 0 <= j < i ==> copies[j]@ == trees[j]@,
        decreases trees.len() - i,
    {
        copies.push(trees[i].clone());
        i += 1;
    }
    copies
}

} // verus!
