use regex_syntax::ast::parse::Parser;
use regex_syntax::ast::{Ast, Class, ClassSet};
use thompson_nfa::syntax::{CharClass, CharSet, RepeatKind, SetItem, Syntax};
use thompson_nfa::translator::{translate, TranslatorError};

fn parsed(pattern: &str) -> Ast {
    Parser::new().parse(pattern).unwrap()
}

fn message(pattern: &str) -> String {
    translate(pattern).err().unwrap().message()
}

#[test]
fn message_of_an_unsupported_node() {
    for pattern in [".", "", "^", "(?i)"] {
        assert_eq!(
            message(pattern),
            format!(
                "error when translating regular expression: {:?} is not a supported ast kind (yet)",
                parsed(pattern)
            )
        );
    }
    assert!(message(".").contains("Dot(Span("));
}

#[test]
fn message_of_a_counted_repetition_shows_its_bounds() {
    let text = message("a{2,4}");
    assert_eq!(
        text,
        format!(
            "error when translating regular expression: {:?} is not a supported ast kind (yet)",
            parsed("a{2,4}")
        )
    );
    assert!(text.contains("Bounded("));
}

#[test]
fn message_of_an_unsupported_class() {
    for pattern in [r"\d", r"\pL", "[^a-c]"] {
        let expected = match &parsed(pattern) {
            Ast::Class(class) => format!(
                "error when translating regular expression: {:?} is not a supported class kind (yet)",
                class
            ),
            other => panic!("{:?}", other),
        };
        assert_eq!(message(pattern), expected);
    }
}

#[test]
fn message_of_an_unsupported_class_set() {
    let expected = match &parsed("[a-c&&b-d]") {
        Ast::Class(Class::Bracketed(class)) => format!(
            "error when translating regular expression: {:?} is not a supported class set kind (yet)",
            class.kind
        ),
        other => panic!("{:?}", other),
    };
    assert_eq!(message("[a-c&&b-d]"), expected);
}

#[test]
fn message_of_an_unsupported_class_set_item() {
    for pattern in ["[a]", "[^a]", "[a-cx]", "[[:alpha:]]"] {
        let expected = match &parsed(pattern) {
            Ast::Class(Class::Bracketed(class)) => match &class.kind {
                ClassSet::Item(item) => format!(
                    "error when translating regular expression: \
                     {:?} is not a supported class set item kind (yet)",
                    item
                ),
                other => panic!("{:?}", other),
            },
            other => panic!("{:?}", other),
        };
        assert_eq!(message(pattern), expected);
    }
}

#[test]
fn message_of_a_parser_error() {
    match translate("(a") {
        Err(TranslatorError::ParserError(error)) => {
            let expected = format!("error when translating regular expression: {}", error);
            assert_eq!(TranslatorError::ParserError(error).message(), expected);
            assert!(expected.contains("unclosed group"));
        }
        other => panic!("{:?}", other.map(|_| ())),
    }
}

#[test]
fn parser_error_is_the_one_for_the_pattern() {
    for pattern in ["(a", "a)", "[z-a]", "*", "a{4,2}"] {
        let expected = Parser::new().parse(pattern).unwrap_err();
        match translate(pattern) {
            Err(TranslatorError::ParserError(error)) => assert_eq!(error, expected),
            other => panic!("{:?}", other.map(|_| ())),
        }
    }
}

#[test]
fn message_of_an_error_made_by_hand() {
    assert_eq!(
        TranslatorError::UnsupportedAst(Syntax::Dot(String::from("a dot"))).message(),
        "error when translating regular expression: a dot is not a supported ast kind (yet)"
    );
    let repetition = Syntax::Repetition {
        kind: RepeatKind::Range,
        greedy: true,
        inner: Box::new(Syntax::Literal('a')),
        shown: String::from("a{2}"),
    };
    assert_eq!(
        TranslatorError::UnsupportedAst(repetition).message(),
        "error when translating regular expression: a{2} is not a supported ast kind (yet)"
    );
    assert_eq!(
        TranslatorError::UnsupportedAst(Syntax::Literal('a')).message(),
        "error when translating regular expression:  is not a supported ast kind (yet)"
    );
    assert_eq!(
        TranslatorError::UnsupportedClass(CharClass::Perl, String::from("\\d")).message(),
        "error when translating regular expression: \\d is not a supported class kind (yet)"
    );
    assert_eq!(
        TranslatorError::UnsupportedClassSet(CharSet::BinaryOp, String::from("x&&y")).message(),
        "error when translating regular expression: x&&y is not a supported class set kind (yet)"
    );
    assert_eq!(
        TranslatorError::UnsupportedClassSetItem(SetItem::Literal('a'), String::from("a")).message(),
        "error when translating regular expression: a is not a supported class set item kind (yet)"
    );
}
