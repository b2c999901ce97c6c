use thompson_nfa::parse_tree::ParseTree;

fn atom(c: char) -> Box<ParseTree> {
    Box::new(ParseTree::Atom(c))
}

fn term(factors: Vec<ParseTree>) -> ParseTree {
    let mut tree = ParseTree::Empty;
    for factor in factors {
        tree = ParseTree::Concatenation { left: Box::new(tree), right: Box::new(factor) };
    }
    tree
}

fn characters(pattern: &str) -> Vec<char> {
    pattern.chars().collect()
}

#[test]
fn empty_pattern_is_the_empty_tree() {
    assert_eq!(ParseTree::from(""), ParseTree::Empty);
}

#[test]
fn single_character() {
    assert_eq!(ParseTree::from("a"), term(vec![ParseTree::Atom('a')]));
}

#[test]
fn characters_are_joined_to_the_left() {
    assert_eq!(
        ParseTree::from("ab"),
        ParseTree::Concatenation {
            left: Box::new(ParseTree::Concatenation { left: Box::new(ParseTree::Empty), right: atom('a') }),
            right: atom('b'),
        }
    );
}

#[test]
fn alternation_nests_to_the_right() {
    assert_eq!(
        ParseTree::from("a|b|c"),
        ParseTree::Or {
            left: Box::new(term(vec![ParseTree::Atom('a')])),
            right: Box::new(ParseTree::Or {
                left: Box::new(term(vec![ParseTree::Atom('b')])),
                right: Box::new(term(vec![ParseTree::Atom('c')])),
            }),
        }
    );
}

#[test]
fn empty_alternatives() {
    assert_eq!(
        ParseTree::from("|"),
        ParseTree::Or { left: Box::new(ParseTree::Empty), right: Box::new(ParseTree::Empty) }
    );
}

#[test]
fn stars_pile_up() {
    assert_eq!(
        ParseTree::from("a**b"),
        term(vec![
            ParseTree::Star { inner: Box::new(ParseTree::Star { inner: atom('a') }) },
            ParseTree::Atom('b'),
        ])
    );
}

#[test]
fn leading_star_is_a_character() {
    assert_eq!(ParseTree::from("*"), term(vec![ParseTree::Atom('*')]));
}

#[test]
fn backslash_stands_for_itself() {
    assert_eq!(ParseTree::from("\\a"), term(vec![ParseTree::Atom('\\'), ParseTree::Atom('a')]));
}

#[test]
fn other_operators_are_characters() {
    assert_eq!(
        ParseTree::from("a+?"),
        term(vec![ParseTree::Atom('a'), ParseTree::Atom('+'), ParseTree::Atom('?')])
    );
}

#[test]
fn group_wants_a_second_closing_parenthesis() {
    assert_eq!(ParseTree::from("(a))"), term(vec![term(vec![ParseTree::Atom('a')])]));
    assert_eq!(ParseTree::build_tree(&characters("(a)"), 0), None);
    assert_eq!(ParseTree::build_tree(&characters("(a"), 0), None);
    assert_eq!(ParseTree::build_tree(&characters("("), 0), None);
}

#[test]
fn group_under_a_star() {
    assert_eq!(
        ParseTree::from("(a|b))*c"),
        term(vec![
            ParseTree::Star {
                inner: Box::new(ParseTree::Or {
                    left: Box::new(term(vec![ParseTree::Atom('a')])),
                    right: Box::new(term(vec![ParseTree::Atom('b')])),
                }),
            },
            ParseTree::Atom('c'),
        ])
    );
}

#[test]
fn what_follows_a_stray_parenthesis_is_dropped() {
    assert_eq!(ParseTree::from("a)b"), term(vec![ParseTree::Atom('a')]));
    assert_eq!(
        ParseTree::build_tree(&characters("a)b"), 0),
        Some((term(vec![ParseTree::Atom('a')]), 2))
    );
}

#[test]
fn parts_of_the_parser_report_where_they_stop() {
    let input = characters("ab*|c");
    assert_eq!(ParseTree::build_base(&input, 0), Some((ParseTree::Atom('a'), 1)));
    assert_eq!(
        ParseTree::build_factor(&input, 1),
        Some((ParseTree::Star { inner: atom('b') }, 3))
    );
    assert_eq!(
        ParseTree::build_term(&input, 0),
        Some((term(vec![ParseTree::Atom('a'), ParseTree::Star { inner: atom('b') }]), 3))
    );
    assert_eq!(ParseTree::build_term(&input, 3), Some((ParseTree::Empty, 3)));
    assert_eq!(ParseTree::build_base(&input, 5), None);
    assert_eq!(
        ParseTree::build_tree(&input, 4),
        Some((term(vec![ParseTree::Atom('c')]), 5))
    );
}
