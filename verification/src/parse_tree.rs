//! A small parser of its own: patterns of characters, `|`, `*` and
//! parentheses, read by recursive descent into a binary tree.

use vstd::prelude::*;

verus! {

/// The tree of a pattern.
#[derive(Debug, PartialEq, Eq)]
pub enum ParseTree {
    Or { left: Box<ParseTree>, right: Box<ParseTree> },
    Concatenation { left: Box<ParseTree>, right: Box<ParseTree> },
    Star { inner: Box<ParseTree> },
    Question { inner: Box<ParseTree> },
    Plus { inner: Box<ParseTree> },
    Atom(char),
    Empty,
}

/// `tree` under as many stars as stand at `position`, and the place behind them.
pub open spec fn stars_at(input: Seq<char>, position: nat, tree: ParseTree) -> (ParseTree, nat)
    decreases input.len() - position,
{
    if position < input.len() && input[position as int] == '*' {
        stars_at(input, position + 1, ParseTree::Star { inner: Box::new(tree) })
    } else {
        (tree, position)
    }
}

/// The alternation that starts at `position`, and the place behind it: a
/// term, and behind a `|` another alternation. Whatever other character
/// follows the term is passed over. Nothing where the pattern is malformed.
/// (That the term does not end before `position` is asked only to make the
/// definition well founded: by `lemma_term_advances` it never does.)
pub open spec fn tree_at(input: Seq<char>, position: nat) -> Option<(ParseTree, nat)>
    decreases input.len() - position, 3nat,
{
    match term_at(input, position, ParseTree::Empty) {
        None => None,
        Some((tree, next)) => if next < position || next >= input.len() {
            Some((tree, next))
        } else if input[next as int] == '|' {
            match tree_at(input, next + 1) {
                None => None,
                Some((right, end)) => Some(
                    (ParseTree::Or { left: Box::new(tree), right: Box::new(right) }, end),
                ),
            }
        } else {
            Some((tree, next + 1))
        },
    }
}

/// The term that goes on at `position`, and the place behind it: `tree`
/// joined with the factors that follow, up to the end, a `)` or a `|`.
/// (That a factor ends behind `position` and within the pattern is asked only
/// to make the definition well founded: by `lemma_factor_advances` it always does.)
pub open spec fn term_at(input: Seq<char>, position: nat, tree: ParseTree) -> Option<(ParseTree, nat)>
    decreases input.len() - position, 2nat,
{
    if position < input.len() && input[position as int] != ')' && input[position as int] != '|' {
        match factor_at(input, position) {
            None => None,
            Some((factor, next)) => if next <= position || next > input.len() {
                None
            } else {
                term_at(
                    input,
                    next,
                    ParseTree::Concatenation { left: Box::new(tree), right: Box::new(factor) },
                )
            },
        }
    } else {
        Some((tree, position))
    }
}

/// The factor that starts at `position`, and the place behind it: a base
/// under the stars that follow it.
pub open spec fn factor_at(input: Seq<char>, position: nat) -> Option<(ParseTree, nat)>
    decreases input.len() - position, 1nat,
{
    match base_at(input, position) {
        None => None,
        Some((base, next)) => Some(stars_at(input, next, base)),
    }
}

/// The base that starts at `position`, and the place behind it: a character
/// for itself or, behind a `(`, an alternation and the `)` that must follow
/// it. Nothing at the end of the pattern or where that `)` is missing.
pub open spec fn base_at(input: Seq<char>, position: nat) -> Option<(ParseTree, nat)>
    decreases input.len() - position, 0nat,
{
    if position >= input.len() {
        None
    } else if input[position as int] == '(' {
        match tree_at(input, position + 1) {
            None => None,
            Some((tree, next)) => if next < input.len() && input[next as int] == ')' {
                Some((tree, next + 1))
            } else {
                None
            },
        }
    } else {
        Some((ParseTree::Atom(input[position as int]), position + 1))
    }
}

/// The stars behind a base end at or behind their start, within the pattern.
pub proof fn lemma_stars_advance(input: Seq<char>, position: nat, tree: ParseTree)
    requires
        position <= input.len(),
    ensures
        position <= stars_at(input, position, tree).1 <= input.len(),
    decreases input.len() - position,
{
    if position < input.len() && input[position as int] == '*' {
        lemma_stars_advance(input, position + 1, ParseTree::Star { inner: Box::new(tree) });
    }
}

/// An alternation ends at or behind its start, within the pattern.
pub proof fn lemma_tree_advances(input: Seq<char>, position: nat)
    requires
        position <= input.len(),
    ensures
        tree_at(input, position) matches Some((_, next)) ==> position <= next <= input.len(),
    decreases input.len() - position, 3nat,
{
    lemma_term_advances(input, position, ParseTree::Empty);
    match term_at(input, position, ParseTree::Empty) {
        None => {},
        Some((tree, next)) => {
            if next < input.len() && input[next as int] == '|' {
                lemma_tree_advances(input, next + 1);
            }
        },
    }
}

/// A term ends at or behind its start, within the pattern. So the test that
/// `term_at` makes before it goes on behind a factor never fails.
pub proof fn lemma_term_advances(input: Seq<char>, position: nat, tree: ParseTree)
    requires
        position <= input.len(),
    ensures
        term_at(input, position, tree) matches Some((_, next)) ==> position <= next <= input.len(),
    decreases input.len() - position, 2nat,
{
    lemma_factor_advances(input, position);
    if position < input.len() && input[position as int] != ')' && input[position as int] != '|' {
        match factor_at(input, position) {
            None => {},
            Some((factor, next)) => {
                lemma_term_advances(
                    input,
                    next,
                    ParseTree::Concatenation { left: Box::new(tree), right: Box::new(factor) },
                );
            },
        }
    }
}

/// A factor ends behind its start, within the pattern.
pub proof fn lemma_factor_advances(input: Seq<char>, position: nat)
    requires
        position <= input.len(),
    ensures
        factor_at(input, position) matches Some((_, next)) ==> position < next <= input.len(),
    decreases input.len() - position, 1nat,
{
    lemma_base_advances(input, position);
    match base_at(input, position) {
        None => {},
        Some((base, next)) => {
            lemma_stars_advance(input, next, base);
        },
    }
}

/// A base ends behind its start, within the pattern.
pub proof fn lemma_base_advances(input: Seq<char>, position: nat)
    requires
        position <= input.len(),
    ensures
        base_at(input, position) matches Some((_, next)) ==> position < next <= input.len(),
    decreases input.len() - position, 0nat,
{
    if position < input.len() && input[position as int] == '(' {
        lemma_tree_advances(input, position + 1);
    }
}

impl ParseTree {
    /// Reads the pattern `input` into its tree.
    pub fn from(input: &str) -> (tree: ParseTree)
        requires
            tree_at(input@, 0) is Some,
        ensures
            tree_at(input@, 0) matches Some((parsed, _)) && parsed == tree,
    {
        let mut characters: Vec<char> = Vec::new();
        for c in it: input.chars()
            invariant
                it.seq() == input@,
                characters@ == it.seq().take(it.index()),
        {
            characters.push(c);
        }
        assert(characters@ =~= input@);
        match ParseTree::build_tree(&characters, 0) {
            Some((tree, _)) => tree,
            None => unreached(),
        }
    }

    /// Reads an alternation from `position` on; see [`tree_at`].
    pub fn build_tree(input: &Vec<char>, position: usize) -> (result: Option<(ParseTree, usize)>)
        requires
            position <= input@.len(),
        ensures
            match result {
                Some((tree, next)) => tree_at(input@, position as nat) == Some((tree, next as nat)),
                None => tree_at(input@, position as nat) is None,
            },
        decreases input@.len() - position, 3nat,
    {
        let (tree, next) = match ParseTree::build_term(input, position) {
            Some(term) => term,
            None => {
                return None;
            },
        };
        proof {
            lemma_term_advances(input@, position as nat, ParseTree::Empty);
        }
        if next < input.len() {
            if input[next] == '|' {
                match ParseTree::build_tree(input, next + 1) {
                    Some((next_term_tree, end)) => Some(
                        (ParseTree::Or { left: Box::new(tree), right: Box::new(next_term_tree) }, end),
                    ),
                    None => None,
                }
            } else {
                Some((tree, next + 1))
            }
        } else {
            Some((tree, next))
        }
    }

    /// Reads a term from `position` on; see [`term_at`].
    pub fn build_term(input: &Vec<char>, position: usize) -> (result: Option<(ParseTree, usize)>)
        requires
            position <= input@.len(),
        ensures
            match result {
                Some((tree, next)) => term_at(input@, position as nat, ParseTree::Empty) == Some(
                    (tree, next as nat),
                ),
                None => term_at(input@, position as nat, ParseTree::Empty) is None,
            },
        decreases input@.len() - position, 2nat,
    {
        let mut factor_tree = ParseTree::Empty;
        let mut at: usize = position;
        while at < input.len() && input[at] != ')' && input[at] != '|'
            invariant
                position <= at <= input@.len(),
                term_at(input@, position as nat, ParseTree::Empty) == term_at(
                    input@,
                    at as nat,
                    factor_tree,
                ),
            decreases input@.len() - at,
        {
            let (next_factor_tree, next) = match ParseTree::build_factor(input, at) {
                Some(factor) => factor,
                None => {
                    return None;
                },
            };
            proof {
                lemma_factor_advances(input@, at as nat);
            }
            factor_tree =
            ParseTree::Concatenation {
                left: Box::new(factor_tree),
                right: Box::new(next_factor_tree),
            };
            at = next;
        }
        Some((factor_tree, at))
    }

    /// Reads a factor from `position` on; see [`factor_at`].
    pub fn build_factor(input: &Vec<char>, position: usize) -> (result: Option<(ParseTree, usize)>)
        requires
            position <= input@.len(),
        ensures
            match result {
                Some((tree, next)) => factor_at(input@, position as nat) == Some((tree, next as nat)),
                None => factor_at(input@, position as nat) is None,
            },
        decreases input@.len() - position, 1nat,
    {
        let (mut base_tree, mut at) = match ParseTree::build_base(input, position) {
            Some(base) => base,
            None => {
                return None;
            },
        };
        proof {
            lemma_base_advances(input@, position as nat);
        }
        while at < input.len() && input[at] == '*'
            invariant
                position < at <= input@.len(),
                factor_at(input@, position as nat) == Some(stars_at(input@, at as nat, base_tree)),
            decreases input@.len() - at,
        {
            at += 1;
            base_tree = ParseTree::Star { inner: Box::new(base_tree) };
        }
        Some((base_tree, at))
    }

    /// Reads a base from `position` on; see [`base_at`].
    pub fn build_base(input: &Vec<char>, position: usize) -> (result: Option<(ParseTree, usize)>)
        requires
            position <= input@.len(),
        ensures
            match result {
                Some((tree, next)) => base_at(input@, position as nat) == Some((tree, next as nat)),
                None => base_at(input@, position as nat) is None,
            },
        decreases input@.len() - position, 0nat,
    {
        if position >= input.len() {
            return None;
        }
        let c = input[position];
        if c == '(' {
            match ParseTree::build_tree(input, position + 1) {
                Some((tree, next)) => {
                    if next < input.len() && input[next] == ')' {
                        Some((tree, next + 1))
                    } else {
                        None
                    }
                },
                None => None,
            }
        } else {
            Some((ParseTree::Atom(c), position + 1))
        }
    }
}

} // verus!
