//! The textual front end: a pattern is parsed by `regex_syntax`, and the tree
//! that it yields is turned into a tree of this library.

use vstd::prelude::*;
use regex_syntax::ast::parse::Parser;
use regex_syntax::ast::{Ast, Class, ClassSet, ClassSetItem, Repetition, RepetitionKind};
use crate::syntax::{
    CharClass, CharRange, CharSet, ClassShown, Regex, RepeatKind, SetItem, Syntax,
};

verus! {

/// The parser's error: `regex_syntax::ast::Error`.
#[verifier::external_type_specification]
#[verifier::external_body]
pub struct ExError(regex_syntax::ast::Error);

/// A tree of the parser: `regex_syntax::ast::Ast`.
#[verifier::external_type_specification]
#[verifier::external_body]
pub struct ExAst(Ast);

/// A repetition in the parser's tree: `regex_syntax::ast::Repetition`.
#[verifier::external_type_specification]
#[verifier::external_body]
pub struct ExRepetition(Repetition);

/// A class in the parser's tree: `regex_syntax::ast::Class`.
#[verifier::external_type_specification]
#[verifier::external_body]
pub struct ExClass(Class);

/// An item of a bracketed class in the parser's tree:
/// `regex_syntax::ast::ClassSetItem`.
#[verifier::external_type_specification]
#[verifier::external_body]
pub struct ExClassSetItem(ClassSetItem);

/// What the parser makes of a pattern: the tree that it yields, in its
/// mathematical form, or the message of the error with which it rejects the
/// pattern.
pub uninterp spec fn parsed(pattern: Seq<char>) -> Result<Regex, Seq<char>>;

/// Whether `text` is the message of `error`: what `to_string` gives for it,
/// and nothing else is.
pub open spec fn renders(error: regex_syntax::ast::Error, text: Seq<char>) -> bool {
    &&& exists|shown: String| #[trigger]
        vstd::string::to_string_from_display_ensures::<regex_syntax::ast::Error>(&error, shown)
            && shown@ == text
    &&& forall|shown: String| #[trigger]
        vstd::string::to_string_from_display_ensures::<regex_syntax::ast::Error>(&error, shown)
            ==> shown@ == text
}

/// The message of `error`.
pub open spec fn rendering(error: regex_syntax::ast::Error) -> Seq<char> {
    choose|text: Seq<char>| renders(error, text)
}

/// An error has no message but its own.
pub proof fn lemma_rendering(error: regex_syntax::ast::Error, text: Seq<char>)
    requires
        renders(error, text),
    ensures
        rendering(error) == text,
{
    let chosen = rendering(error);
    assert(renders(error, chosen));
}

/// `regex_syntax::ast::parse::Parser::parse`, on a parser with the settings
/// that `Parser::new` gives it. The tree that comes back is converted node by
/// node; the error is handed on as it is. The contract claims one thing of
/// the parser, that what it makes of a pattern depends on the pattern alone:
/// `parsed` is the name of that outcome, the tree or, of an error, the
/// message that `to_string` gives for it.
#[verifier::external_body]
pub(crate) fn parse_pattern(pattern: &str) -> (result: Result<Syntax, regex_syntax::ast::Error>)
    ensures
        match result {
            Ok(tree) => parsed(pattern@) == Ok::<Regex, Seq<char>>(tree@),
            Err(error) => parsed(pattern@) is Err && renders(error, parsed(pattern@)->Err_0),
        },
{
    match Parser::new().parse(pattern) {
        Ok(tree) => Ok(syntax_of(&tree)),
        Err(error) => Err(error),
    }
}

/// Converts a node of the parser's tree, `regex_syntax::ast::Ast`: each kind
/// of node becomes the node of the same kind, with its character or its
/// children. A node of a kind that holds nothing the translator reads keeps
/// how `{:?}` shows it. What else a node holds, such as its place in the
/// pattern or whether a group captures, is left behind.
#[verifier::external_body]
fn syntax_of(tree: &Ast) -> Syntax {
    match tree {
        Ast::Empty(_) => Syntax::Empty(format!("{:?}", tree)),
        Ast::Flags(_) => Syntax::Flags(format!("{:?}", tree)),
        Ast::Dot(_) => Syntax::Dot(format!("{:?}", tree)),
        Ast::Assertion(_) => Syntax::Assertion(format!("{:?}", tree)),
        Ast::Literal(x) => Syntax::Literal(x.c),
        Ast::Class(x) => class_of(x),
        Ast::Repetition(x) => repetition_of(x, format!("{:?}", tree)),
        Ast::Group(x) => Syntax::Group(Box::new(syntax_of(&x.ast))),
        Ast::Alternation(x) => Syntax::Alternation(list_of(&x.asts)),
        Ast::Concat(x) => Syntax::Concat(list_of(&x.asts)),
    }
}

/// Converts the children of a node of the parser's tree, each by `syntax_of`
/// and in their order.
#[verifier::external_body]
fn list_of(trees: &Vec<Ast>) -> Vec<Syntax> {
    trees.iter().map(syntax_of).collect()
}

/// Converts a repetition of the parser's tree,
/// `regex_syntax::ast::Repetition`, with its operator, whether it is greedy,
/// and its inner expression. `shown` is how `{:?}` shows the node, which
/// holds the bounds of a counted repetition too.
#[verifier::external_body]
fn repetition_of(repetition: &Repetition, shown: String) -> Syntax {
    Syntax::Repetition {
        kind: match repetition.op.kind {
            RepetitionKind::ZeroOrOne => RepeatKind::ZeroOrOne,
            RepetitionKind::ZeroOrMore => RepeatKind::ZeroOrMore,
            RepetitionKind::OneOrMore => RepeatKind::OneOrMore,
            RepetitionKind::Range(_) => RepeatKind::Range,
        },
        greedy: repetition.greedy,
        inner: Box::new(syntax_of(&repetition.ast)),
        shown,
    }
}

/// Converts a class of the parser's tree, `regex_syntax::ast::Class`. Of a
/// bracketed class it keeps whether it is negated and what stands between
/// the brackets, of the other classes only their kind; and beside the shape
/// how `{:?}` shows the class, what stands between its brackets and the
/// single item there, each as far as the class has it.
#[verifier::external_body]
fn class_of(class: &Class) -> Syntax {
    let (shape, set, item) = match class {
        Class::Unicode(_) => (CharClass::Unicode, String::new(), String::new()),
        Class::Perl(_) => (CharClass::Perl, String::new(), String::new()),
        Class::Bracketed(x) => {
            let (inner, item) = match &x.kind {
                ClassSet::Item(i) => (CharSet::Item(item_of(i)), format!("{:?}", i)),
                ClassSet::BinaryOp(_) => (CharSet::BinaryOp, String::new()),
            };
            (CharClass::Bracketed { negated: x.negated, set: inner }, format!("{:?}", x.kind), item)
        },
    };
    Syntax::Class { class: shape, shown: ClassShown { class: format!("{:?}", class), set, item } }
}

/// Converts an item of a bracketed class of the parser's tree,
/// `regex_syntax::ast::ClassSetItem`. Of a character and of a range it keeps
/// the characters, of the other items only their kind.
#[verifier::external_body]
fn item_of(item: &ClassSetItem) -> SetItem {
    match item {
        ClassSetItem::Empty(_) => SetItem::Empty,
        ClassSetItem::Literal(x) => SetItem::Literal(x.c),
        ClassSetItem::Range(x) => SetItem::Range(CharRange { start: x.start.c, end: x.end.c }),
        ClassSetItem::Ascii(_) => SetItem::Ascii,
        ClassSetItem::Unicode(_) => SetItem::Unicode,
        ClassSetItem::Perl(_) => SetItem::Perl,
        ClassSetItem::Bracketed(_) => SetItem::Bracketed,
        ClassSetItem::Union(_) => SetItem::Union,
    }
}

} // verus!
