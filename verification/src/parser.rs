//! The syntax of queries.
//!
//! ```text
//! matcher  := chain ',' matcher
//!           | '!' chain '..' chain
//!           | chain '..' '!' chain
//!           | chain '..' matcher
//!           | chain
//! chain    := atom '/' chain | atom
//! atom     := '{' regex '}' | '..' atom | '(' matcher ')' | '.'
//! ```
//!
//! The alternatives of a rule are tried in the order written, and the first
//! that fits is taken. Blanks and line feeds may stand between the parts of
//! one alternative and after the query, not before it.

use crate::matcher::{
    ast_of, empty_matcher, Ast, Combinator, Matcher, NotMatcher, OrMatcher, ParenMatcher,
    RegexMatcher, SkipMatcher, ThenMatcher, WildcardMatcher,
};
use crate::pattern::{regex_compiles, PatternError};
use crate::text::{chars_of, string_of};
use vstd::prelude::*;

verus! {

/// Whether `c` may stand between the parts of a query.
pub open spec fn is_space(c: char) -> bool {
    c == ' ' || c == '\n'
}

/// The first position from `pos` on that holds no blank.
pub open spec fn skip_space(chars: Seq<char>, pos: nat) -> nat
    decreases chars.len() - pos,
{
    if pos < chars.len() && is_space(chars[pos as int]) {
        skip_space(chars, pos + 1)
    } else {
        pos
    }
}

/// Skipping blanks moves forward, and not past the end.
pub proof fn lemma_skip_space(chars: Seq<char>, pos: nat)
    ensures
        pos <= skip_space(chars, pos),
        pos <= chars.len() ==> skip_space(chars, pos) <= chars.len(),
    decreases chars.len() - pos,
{
    if pos < chars.len() && is_space(chars[pos as int]) {
        lemma_skip_space(chars, pos + 1);
    }
}

/// Whether `text` stands in `chars` at `pos`.
pub open spec fn starts_with(chars: Seq<char>, pos: nat, text: Seq<char>) -> bool {
    pos + text.len() <= chars.len() && chars.subrange(pos as int, (pos + text.len()) as int) == text
}

/// Where `text` ends, if it stands in `chars` after the blanks from `pos`
/// on.
pub open spec fn token(chars: Seq<char>, pos: nat, text: Seq<char>) -> Option<nat> {
    let at = skip_space(chars, pos);
    if starts_with(chars, at, text) {
        Some(at + text.len())
    } else {
        None
    }
}

/// The scan for the brace that closes a pattern: `offset` is the position
/// last looked at, `balance` the number of braces open there. A backslash
/// hides the character after it. The result is the position of the closing
/// brace, if the input does not run out before it.
pub open spec fn closing_brace(chars: Seq<char>, offset: nat, balance: nat) -> Option<nat>
    decreases chars.len() - offset,
{
    let next = offset + 1;
    if next >= chars.len() {
        None
    } else if chars[next as int] == '{' {
        closing_brace(chars, next, balance + 1)
    } else if chars[next as int] == '}' {
        if balance <= 1 {
            Some(next)
        } else {
            closing_brace(chars, next, (balance - 1) as nat)
        }
    } else if chars[next as int] == '\\' {
        closing_brace(chars, next + 1, balance)
    } else {
        closing_brace(chars, next, balance)
    }
}

/// What is wrong with a text that is no query.
#[derive(Copy, Clone, Debug, PartialEq, Eq, Structural)]
pub enum Expected {
    /// A pattern has to start with `{`.
    OpenBrace,
    /// A pattern has to end with the `}` that matches its `{`.
    CloseBrace,
    /// A query has to start here.
    Matcher,
    /// The query has ended, but the text goes on.
    EndOfInput,
}

/// A pattern in braces at `pos`: the pattern and the position after its
/// closing brace; or what is missing and where: the opening brace at `pos`,
/// or the closing brace at the end of the text.
pub open spec fn spec_regex(chars: Seq<char>, pos: nat) -> Result<(Seq<char>, nat), (
    Expected,
    nat,
)> {
    if pos >= chars.len() || chars[pos as int] != '{' {
        Err((Expected::OpenBrace, pos))
    } else {
        match closing_brace(chars, pos, 1) {
            Some(close) => Ok((chars.subrange((pos + 1) as int, close as int), close + 1)),
            None => Err((Expected::CloseBrace, chars.len())),
        }
    }
}

/// An atom at `pos`: the number of characters it takes up, and what it
/// says.
pub open spec fn spec_atom(chars: Seq<char>, pos: nat) -> Option<(Ast, nat)>
    decreases chars.len() - pos, 0nat, 3nat,
{
    if pos > chars.len() {
        None
    } else if let Ok((pattern, end)) = spec_regex(chars, pos) {
        Some((Ast::Regex(pattern), (end - pos) as nat))
    } else if let Some(found) = spec_skip_atom(chars, pos) {
        Some(found)
    } else if let Some(found) = spec_paren_atom(chars, pos) {
        Some(found)
    } else if starts_with(chars, pos, seq!['.']) {
        Some((Ast::Wildcard, 1))
    } else {
        None
    }
}

/// `'..' atom` at `pos`.
pub open spec fn spec_skip_atom(chars: Seq<char>, pos: nat) -> Option<(Ast, nat)>
    decreases chars.len() - pos, 0nat, 2nat,
{
    if pos <= chars.len() && starts_with(chars, pos, seq!['.', '.']) {
        let at = skip_space(chars, pos + 2);
        proof {
            lemma_skip_space(chars, pos + 2);
        }
        match spec_atom(chars, at) {
            Some((needle, n)) => Some(
                (Ast::Skip(Box::new(needle), Box::new(Ast::Empty)), (at + n - pos) as nat),
            ),
            None => None,
        }
    } else {
        None
    }
}

/// `'(' matcher ')'` at `pos`.
pub open spec fn spec_paren_atom(chars: Seq<char>, pos: nat) -> Option<(Ast, nat)>
    decreases chars.len() - pos, 0nat, 1nat,
{
    if pos <= chars.len() && starts_with(chars, pos, seq!['(']) {
        let at = skip_space(chars, pos + 1);
        proof {
            lemma_skip_space(chars, pos + 1);
        }
        match spec_matcher(chars, at) {
            Some((inner, n)) => match token(chars, at + n, seq![')']) {
                Some(end) => Some((Ast::Paren(Box::new(inner)), (end - pos) as nat)),
                None => None,
            },
            None => None,
        }
    } else {
        None
    }
}

/// A chain of alternatives at `pos`: `atom '/' chain`, or one atom.
pub open spec fn spec_chain(chars: Seq<char>, pos: nat) -> Option<(Ast, nat)>
    decreases chars.len() - pos, 1nat, 0nat,
{
    match spec_atom(chars, pos) {
        Some((left, n)) => match token(chars, pos + n, seq!['/']) {
            Some(slash) => {
                let at = skip_space(chars, slash);
                proof {
                    lemma_skip_space(chars, pos + n);
                    lemma_skip_space(chars, slash);
                }
                match spec_chain(chars, at) {
                    Some((right, k)) => Some(
                        (Ast::Or(Box::new(left), Box::new(right)), (at + k - pos) as nat),
                    ),
                    None => Some((left, n)),
                }
            },
            None => Some((left, n)),
        },
        None => None,
    }
}

/// `chain ',' matcher` at `pos`.
pub open spec fn spec_comma(chars: Seq<char>, pos: nat) -> Option<(Ast, nat)>
    decreases chars.len() - pos, 2nat, 0nat,
{
    match spec_chain(chars, pos) {
        Some((left, n)) => match token(chars, pos + n, seq![',']) {
            Some(comma) => {
                let at = skip_space(chars, comma);
                proof {
                    lemma_skip_space(chars, pos + n);
                    lemma_skip_space(chars, comma);
                }
                match spec_matcher(chars, at) {
                    Some((right, k)) => Some(
                        (Ast::Then(Box::new(left), Box::new(right)), (at + k - pos) as nat),
                    ),
                    None => None,
                }
            },
            None => None,
        },
        None => None,
    }
}

/// `'!' chain '..' chain` at `pos`: a search for the second chain that
/// does not cross a frame at which the first matches.
pub open spec fn spec_not_then(chars: Seq<char>, pos: nat) -> Option<(Ast, nat)>
    decreases chars.len() - pos, 2nat, 1nat,
{
    if pos <= chars.len() && starts_with(chars, pos, seq!['!']) {
        let at = skip_space(chars, pos + 1);
        proof {
            lemma_skip_space(chars, pos + 1);
        }
        match spec_chain(chars, at) {
            Some((barrier, n)) => match token(chars, at + n, seq!['.', '.']) {
                Some(dots) => {
                    let then = skip_space(chars, dots);
                    proof {
                        lemma_skip_space(chars, at + n);
                        lemma_skip_space(chars, dots);
                    }
                    match spec_chain(chars, then) {
                        Some((needle, k)) => Some(
                            (
                                Ast::Skip(
                                    Box::new(needle),
                                    Box::new(Ast::Not(Box::new(barrier))),
                                ),
                                (then + k - pos) as nat,
                            ),
                        ),
                        None => None,
                    }
                },
                None => None,
            },
            None => None,
        }
    } else {
        None
    }
}

/// `chain '..' '!' chain` at `pos`: the first chain, with the second
/// nowhere above it.
pub open spec fn spec_then_not(chars: Seq<char>, pos: nat) -> Option<(Ast, nat)>
    decreases chars.len() - pos, 2nat, 2nat,
{
    match spec_chain(chars, pos) {
        Some((left, n)) => match token(chars, pos + n, seq!['.', '.']) {
            Some(dots) => match token(chars, dots, seq!['!']) {
                Some(bang) => {
                    let at = skip_space(chars, bang);
                    proof {
                        lemma_skip_space(chars, pos + n);
                        lemma_skip_space(chars, dots);
                        lemma_skip_space(chars, bang);
                    }
                    match spec_chain(chars, at) {
                        Some((absent, k)) => Some(
                            (
                                Ast::Then(
                                    Box::new(left),
                                    Box::new(
                                        Ast::Not(
                                            Box::new(
                                                Ast::Skip(Box::new(absent), Box::new(Ast::Empty)),
                                            ),
                                        ),
                                    ),
                                ),
                                (at + k - pos) as nat,
                            ),
                        ),
                        None => None,
                    }
                },
                None => None,
            },
            None => None,
        },
        None => None,
    }
}

/// `chain '..' matcher` at `pos`: the first chain, and the matcher
/// somewhere above it.
pub open spec fn spec_then_skip(chars: Seq<char>, pos: nat) -> Option<(Ast, nat)>
    decreases chars.len() - pos, 2nat, 3nat,
{
    match spec_chain(chars, pos) {
        Some((left, n)) => match token(chars, pos + n, seq!['.', '.']) {
            Some(dots) => {
                let at = skip_space(chars, dots);
                proof {
                    lemma_skip_space(chars, pos + n);
                    lemma_skip_space(chars, dots);
                }
                match spec_matcher(chars, at) {
                    Some((needle, k)) => Some(
                        (
                            Ast::Then(
                                Box::new(left),
                                Box::new(Ast::Skip(Box::new(needle), Box::new(Ast::Empty))),
                            ),
                            (at + k - pos) as nat,
                        ),
                    ),
                    None => None,
                }
            },
            None => None,
        },
        None => None,
    }
}

/// A matcher at `pos`: the number of characters it takes up, and what it
/// says. The first alternative that fits is taken.
pub open spec fn spec_matcher(chars: Seq<char>, pos: nat) -> Option<(Ast, nat)>
    decreases chars.len() - pos, 2nat, 4nat,
{
    if let Some(found) = spec_comma(chars, pos) {
        Some(found)
    } else if let Some(found) = spec_not_then(chars, pos) {
        Some(found)
    } else if let Some(found) = spec_then_not(chars, pos) {
        Some(found)
    } else if let Some(found) = spec_then_skip(chars, pos) {
        Some(found)
    } else {
        spec_chain(chars, pos)
    }
}

/// What the text of a whole query says, or what is wrong with it and at
/// which character.
pub open spec fn spec_parse(chars: Seq<char>) -> Result<Ast, (Expected, nat)> {
    match spec_matcher(chars, 0) {
        Some((query, n)) => if skip_space(chars, n) == chars.len() {
            Ok(query)
        } else {
            Err((Expected::EndOfInput, skip_space(chars, n)))
        },
        None => Err((Expected::Matcher, 0)),
    }
}

/// The patterns of a query, in the order written.
pub open spec fn patterns(query: Ast) -> Seq<Seq<char>>
    decreases query,
{
    match query {
        Ast::Regex(pattern) => seq![pattern],
        Ast::Wildcard => Seq::empty(),
        Ast::Empty => Seq::empty(),
        Ast::Paren(inner) => patterns(*inner),
        Ast::Not(inner) => patterns(*inner),
        Ast::Then(left, right) => patterns(*left) + patterns(*right),
        Ast::Skip(needle, condition) => patterns(*needle) + patterns(*condition),
        Ast::Or(left, right) => patterns(*left) + patterns(*right),
    }
}

/// A query as written, before its regular expressions are compiled.
#[derive(Debug)]
pub enum Query {
    /// `{pattern}`: one frame that matches the pattern.
    Regex(String),
    /// `.`: any one frame.
    Wildcard,
    /// Nothing; the condition of a search that may drop any frame.
    Empty,
    /// `(m)`.
    Paren(Box<Query>),
    /// Succeeds where the query inside fails.
    Not(Box<Query>),
    /// One query, then another on what follows.
    Then(Box<Query>, Box<Query>),
    /// A search for the first query, dropping frames while the second
    /// succeeds.
    Skip(Box<Query>, Box<Query>),
    /// `l/r`: one query, or else another.
    Or(Box<Query>, Box<Query>),
}

impl Query {
    /// The query as a mathematical value.
    pub open spec fn ast(self) -> Ast
        decreases self,
    {
        match self {
            Query::Regex(pattern) => Ast::Regex(pattern@),
            Query::Wildcard => Ast::Wildcard,
            Query::Empty => Ast::Empty,
            Query::Paren(inner) => Ast::Paren(Box::new(inner.ast())),
            Query::Not(inner) => Ast::Not(Box::new(inner.ast())),
            Query::Then(left, right) => Ast::Then(Box::new(left.ast()), Box::new(right.ast())),
            Query::Skip(needle, condition) => Ast::Skip(
                Box::new(needle.ast()),
                Box::new(condition.ast()),
            ),
            Query::Or(left, right) => Ast::Or(Box::new(left.ast()), Box::new(right.ast())),
        }
    }
}

impl View for Query {
    type V = Ast;

    open spec fn view(&self) -> Ast {
        self.ast()
    }
}

/// Why a text is no query.
#[derive(Debug)]
pub enum ParseError {
    /// The text is not built as a query is: what is missing, and the
    /// character offset at which.
    Syntax { expected: Expected, offset: usize },
    /// The pattern is no regular expression; `reason` is what the compiler
    /// of regular expressions says is wrong with it.
    InvalidRegex { pattern: String, reason: String },
}

impl Expected {
    /// What is missing, in words.
    pub fn describe(&self) -> (text: &'static str)
        ensures
            text@ == match *self {
                Expected::OpenBrace => "'{' character"@,
                Expected::CloseBrace => "matching '}' character"@,
                Expected::Matcher => "."@,
                Expected::EndOfInput => "end of input"@,
            },
    {
        match self {
            Expected::OpenBrace => "'{' character",
            Expected::CloseBrace => "matching '}' character",
            Expected::Matcher => ".",
            Expected::EndOfInput => "end of input",
        }
    }
}

/// The first position from `pos` on that holds no blank.
pub fn skip_whitespace(chars: &Vec<char>, pos: usize) -> (at: usize)
    ensures
        at == skip_space(chars@, pos as nat),
        pos <= at,
        pos <= chars.len() ==> at <= chars.len(),
{
    let mut at: usize = pos;
    while at < chars.len() && (chars[at] == ' ' || chars[at] == '\n')
        invariant
            pos <= at,
            pos <= chars.len() ==> at <= chars.len(),
            skip_space(chars@, at as nat) == skip_space(chars@, pos as nat),
        decreases chars.len() - at,
    {
        at += 1;
    }
    at
}

/// Whether `c` stands in `chars` at `pos`.
fn has_char(chars: &Vec<char>, pos: usize, c: char) -> (b: bool)
    ensures
        b == starts_with(chars@, pos as nat, seq![c]),
{
    if pos < chars.len() && chars[pos] == c {
        assert(chars@.subrange(pos as int, pos + 1) =~= seq![c]);
        true
    } else {
        if pos < chars.len() {
            assert(chars@.subrange(pos as int, pos + 1)[0] == chars@[pos as int]);
        }
        false
    }
}

/// Whether `..` stands in `chars` at `pos`.
fn has_dots(chars: &Vec<char>, pos: usize) -> (b: bool)
    ensures
        b == starts_with(chars@, pos as nat, seq!['.', '.']),
{
    if pos < chars.len() && chars.len() - pos >= 2 {
        assert(chars@.subrange(pos as int, pos + 2)[0] == chars@[pos as int]);
        assert(chars@.subrange(pos as int, pos + 2)[1] == chars@[pos + 1]);
        if chars[pos] == '.' && chars[pos + 1] == '.' {
            assert(chars@.subrange(pos as int, pos + 2) =~= seq!['.', '.']);
            true
        } else {
            false
        }
    } else {
        false
    }
}

/// Where `c` ends, if it stands in `chars` after the blanks from `pos` on.
fn char_token(chars: &Vec<char>, pos: usize, c: char) -> (end: Option<usize>)
    requires
        pos <= chars.len(),
    ensures
        match token(chars@, pos as nat, seq![c]) {
            Some(e) => end == Some(e as usize) && pos < e <= chars.len(),
            None => end is None,
        },
{
    let at = skip_whitespace(chars, pos);
    if has_char(chars, at, c) {
        Some(at + 1)
    } else {
        None
    }
}

/// Where `..` ends, if it stands in `chars` after the blanks from `pos`
/// on.
fn dots_token(chars: &Vec<char>, pos: usize) -> (end: Option<usize>)
    requires
        pos <= chars.len(),
    ensures
        match token(chars@, pos as nat, seq!['.', '.']) {
            Some(e) => end == Some(e as usize) && pos < e <= chars.len(),
            None => end is None,
        },
{
    let at = skip_whitespace(chars, pos);
    if has_dots(chars, at) {
        Some(at + 2)
    } else {
        None
    }
}

/// The pattern in braces: the first of the atoms.
#[allow(non_camel_case_types)]
pub struct MATCHER_RE {}

impl MATCHER_RE {
    /// Reads a pattern in braces at `offset`: an opening brace, and all up
    /// to the brace that closes it. Braces inside have to match, and a
    /// backslash hides the character after it. The result is the pattern
    /// between the braces, as a query, and the position after the closing
    /// brace.
    pub fn parse(chars: &Vec<char>, offset: usize) -> (r: Result<(Query, usize), ParseError>)
        ensures
            match spec_regex(chars@, offset as nat) {
                Ok((pattern, end)) => r matches Ok((query, e)) && query@ == Ast::Regex(pattern)
                    && e == end && offset < e <= chars.len(),
                Err((expected, at)) => r matches Err(ParseError::Syntax { expected: x, offset: o })
                    && x == expected && o == at,
            },
    {
        if offset >= chars.len() || chars[offset] != '{' {
            return Err(ParseError::Syntax { expected: Expected::OpenBrace, offset });
        }
        let mut at: usize = offset;
        let mut balance: usize = 1;
        loop
            invariant
                offset < chars.len(),
                chars@[offset as int] == '{',
                offset <= at <= chars.len(),
                1 <= balance <= at - offset + 1,
                closing_brace(chars@, at as nat, balance as nat) == closing_brace(
                    chars@,
                    offset as nat,
                    1,
                ),
            decreases chars.len() - at,
        {
            if at >= chars.len() || chars.len() - at <= 1 {
                assert(closing_brace(chars@, at as nat, balance as nat) is None);
                return Err(
                    ParseError::Syntax { expected: Expected::CloseBrace, offset: chars.len() },
                );
            }
            let next = at + 1;
            let c = chars[next];
            if c == '{' {
                balance += 1;
                at = next;
            } else if c == '}' {
                if balance <= 1 {
                    assert(closing_brace(chars@, at as nat, balance as nat) == Some(next as nat));
                    let pattern = string_of(chars, offset + 1, next);
                    return Ok((Query::Regex(pattern), next + 1));
                }
                balance -= 1;
                at = next;
            } else if c == '\\' {
                at = next + 1;
            } else {
                at = next;
            }
        }
    }
}

/// Reads an atom at `pos`: a pattern in braces, `..` and an atom, a
/// matcher in parentheses, or a dot.
pub fn parse_atom(chars: &Vec<char>, pos: usize) -> (r: Option<(Query, usize)>)
    ensures
        match spec_atom(chars@, pos as nat) {
            Some((query, n)) => r matches Some((q, end)) && q@ == query && end == pos + n && end
                <= chars.len(),
            None => r is None,
        },
    decreases chars.len() - pos, 0nat,
{
    proof {
        reveal_with_fuel(Query::ast, 3);
    }
    if pos > chars.len() {
        return None;
    }
    if let Ok(found) = MATCHER_RE::parse(chars, pos) {
        return Some(found);
    }
    if has_dots(chars, pos) {
        let at = skip_whitespace(chars, pos + 2);
        if let Some((needle, end)) = parse_atom(chars, at) {
            return Some((Query::Skip(Box::new(needle), Box::new(Query::Empty)), end));
        }
    }
    assert(spec_skip_atom(chars@, pos as nat) is None);
    if has_char(chars, pos, '(') {
        let at = skip_whitespace(chars, pos + 1);
        if let Some((inner, end)) = parse_matcher_at(chars, at) {
            if let Some(close) = char_token(chars, end, ')') {
                return Some((Query::Paren(Box::new(inner)), close));
            }
        }
    }
    assert(spec_paren_atom(chars@, pos as nat) is None);
    if has_char(chars, pos, '.') {
        return Some((Query::Wildcard, pos + 1));
    }
    None
}

/// Reads a chain of alternatives at `pos`: atoms with `/` between them.
pub fn parse_chain(chars: &Vec<char>, pos: usize) -> (r: Option<(Query, usize)>)
    ensures
        match spec_chain(chars@, pos as nat) {
            Some((query, n)) => r matches Some((q, end)) && q@ == query && end == pos + n && end
                <= chars.len(),
            None => r is None,
        },
    decreases chars.len() - pos, 1nat,
{
    if pos > chars.len() {
        return None;
    }
    match parse_atom(chars, pos) {
        Some((left, end)) => {
            if let Some(slash) = char_token(chars, end, '/') {
                let at = skip_whitespace(chars, slash);
                if let Some((right, e)) = parse_chain(chars, at) {
                    return Some((Query::Or(Box::new(left), Box::new(right)), e));
                }
            }
            Some((left, end))
        },
        None => None,
    }
}

/// Reads `'!' chain '..' chain` at `pos`.
fn parse_not_then(chars: &Vec<char>, pos: usize) -> (r: Option<(Query, usize)>)
    requires
        pos <= chars.len(),
    ensures
        match spec_not_then(chars@, pos as nat) {
            Some((query, n)) => r matches Some((q, end)) && q@ == query && end == pos + n && end
                <= chars.len(),
            None => r is None,
        },
    decreases chars.len() - pos, 2nat,
{
    proof {
        reveal_with_fuel(Query::ast, 3);
    }
    if !has_char(chars, pos, '!') {
        return None;
    }
    let at = skip_whitespace(chars, pos + 1);
    if let Some((barrier, end)) = parse_chain(chars, at) {
        if let Some(dots) = dots_token(chars, end) {
            let then = skip_whitespace(chars, dots);
            if let Some((needle, e)) = parse_chain(chars, then) {
                return Some(
                    (Query::Skip(Box::new(needle), Box::new(Query::Not(Box::new(barrier)))), e),
                );
            }
        }
    }
    None
}

/// Reads what follows the chain `left`, which stands from `pos` to `end`,
/// in `chain ',' matcher`; hands `left` back where nothing fits.
fn parse_comma(chars: &Vec<char>, pos: usize, left: Query, end: usize) -> (r: Result<
    (Query, usize),
    Query,
>)
    requires
        pos <= end <= chars.len(),
        spec_chain(chars@, pos as nat) == Some((left@, (end - pos) as nat)),
    ensures
        match spec_comma(chars@, pos as nat) {
            Some((query, n)) => r matches Ok((q, e)) && q@ == query && e == pos + n && e
                <= chars.len(),
            None => r matches Err(l) && l@ == left@,
        },
    decreases chars.len() - pos, 2nat,
{
    if let Some(comma) = char_token(chars, end, ',') {
        let at = skip_whitespace(chars, comma);
        if let Some((right, e)) = parse_matcher_at(chars, at) {
            return Ok((Query::Then(Box::new(left), Box::new(right)), e));
        }
    }
    Err(left)
}

/// Reads what follows the chain `left`, which stands from `pos` to `end`,
/// in `chain '..' '!' chain`; hands `left` back where nothing fits.
fn parse_then_not(chars: &Vec<char>, pos: usize, left: Query, end: usize) -> (r: Result<
    (Query, usize),
    Query,
>)
    requires
        pos <= end <= chars.len(),
        spec_chain(chars@, pos as nat) == Some((left@, (end - pos) as nat)),
    ensures
        match spec_then_not(chars@, pos as nat) {
            Some((query, n)) => r matches Ok((q, e)) && q@ == query && e == pos + n && e
                <= chars.len(),
            None => r matches Err(l) && l@ == left@,
        },
    decreases chars.len() - pos, 2nat,
{
    if let Some(dots) = dots_token(chars, end) {
        if let Some(bang) = char_token(chars, dots, '!') {
            let at = skip_whitespace(chars, bang);
            if let Some((absent, e)) = parse_chain(chars, at) {
                let ghost absent_ast = absent@;
                let ghost left_ast = left@;
                let nothing = Query::Empty;
                assert(nothing@ == Ast::Empty);
                let search = Query::Skip(Box::new(absent), Box::new(nothing));
                assert(search@ == Ast::Skip(Box::new(absent_ast), Box::new(Ast::Empty)));
                let ghost search_ast = search@;
                let not = Query::Not(Box::new(search));
                assert(not@ == Ast::Not(Box::new(search_ast)));
                let ghost not_ast = not@;
                let then = Query::Then(Box::new(left), Box::new(not));
                assert(then@ == Ast::Then(Box::new(left_ast), Box::new(not_ast)));
                return Ok((then, e));
            }
        }
    }
    Err(left)
}

/// Reads what follows the chain `left`, which stands from `pos` to `end`,
/// in `chain '..' matcher`; hands `left` back where nothing fits.
fn parse_then_skip(chars: &Vec<char>, pos: usize, left: Query, end: usize) -> (r: Result<
    (Query, usize),
    Query,
>)
    requires
        pos <= end <= chars.len(),
        spec_chain(chars@, pos as nat) == Some((left@, (end - pos) as nat)),
    ensures
        match spec_then_skip(chars@, pos as nat) {
            Some((query, n)) => r matches Ok((q, e)) && q@ == query && e == pos + n && e
                <= chars.len(),
            None => r matches Err(l) && l@ == left@,
        },
    decreases chars.len() - pos, 2nat,
{
    proof {
        reveal_with_fuel(Query::ast, 3);
    }
    if let Some(dots) = dots_token(chars, end) {
        let at = skip_whitespace(chars, dots);
        if let Some((needle, e)) = parse_matcher_at(chars, at) {
            let search = Query::Skip(Box::new(needle), Box::new(Query::Empty));
            return Ok((Query::Then(Box::new(left), Box::new(search)), e));
        }
    }
    Err(left)
}

/// Reads a matcher at `pos`: the first that fits of `chain ',' matcher`,
/// `'!' chain '..' chain`, `chain '..' '!' chain`, `chain '..' matcher` and
/// `chain`.
pub fn parse_matcher_at(chars: &Vec<char>, pos: usize) -> (r: Option<(Query, usize)>)
    ensures
        match spec_matcher(chars@, pos as nat) {
            Some((query, n)) => r matches Some((q, end)) && q@ == query && end == pos + n && end
                <= chars.len(),
            None => r is None,
        },
    decreases chars.len() - pos, 3nat,
{
    if pos > chars.len() {
        return None;
    }
    match parse_chain(chars, pos) {
        Some((left, end)) => {
            let left = match parse_comma(chars, pos, left, end) {
                Ok(found) => {
                    return Some(found);
                },
                Err(left) => left,
            };
            if let Some(found) = parse_not_then(chars, pos) {
                return Some(found);
            }
            let left = match parse_then_not(chars, pos, left, end) {
                Ok(found) => {
                    return Some(found);
                },
                Err(left) => left,
            };
            match parse_then_skip(chars, pos, left, end) {
                Ok(found) => Some(found),
                Err(left) => Some((left, end)),
            }
        },
        None => parse_not_then(chars, pos),
    }
}

/// Reads the text of a whole query.
pub fn parse_query(text: &str) -> (r: Result<Query, ParseError>)
    ensures
        match spec_parse(text@) {
            Ok(query) => r matches Ok(q) && q@ == query,
            Err((expected, at)) => r matches Err(ParseError::Syntax { expected: x, offset: o })
                && x == expected && o == at,
        },
{
    let chars = chars_of(text);
    match parse_matcher_at(&chars, 0) {
        Some((query, end)) => {
            let rest = skip_whitespace(&chars, end);
            if rest == chars.len() {
                Ok(query)
            } else {
                Err(ParseError::Syntax { expected: Expected::EndOfInput, offset: rest })
            }
        },
        None => Err(ParseError::Syntax { expected: Expected::Matcher, offset: 0 }),
    }
}

/// What becomes of a pattern once it has been handed to the compiler of
/// regular expressions: the matcher that came back, or the error that
/// names the pattern.
pub fn regex_node(compiled: Result<Matcher, PatternError>) -> (r: Result<Matcher, ParseError>)
    ensures
        match compiled {
            Ok(m) => r == Ok::<Matcher, ParseError>(m),
            Err(e) => r == Err::<Matcher, ParseError>(
                ParseError::InvalidRegex { pattern: e.pattern, reason: e.reason },
            ),
        },
{
    match compiled {
        Ok(m) => Ok(m),
        Err(e) => Err(ParseError::InvalidRegex { pattern: e.pattern, reason: e.reason }),
    }
}

/// The index of the first of `patterns` from `from` on that is no regular
/// expression.
pub open spec fn first_invalid(patterns: Seq<Seq<char>>, from: int) -> Option<int>
    decreases patterns.len() - from,
{
    if from < 0 || from >= patterns.len() {
        None
    } else if !regex_compiles(patterns[from]) {
        Some(from)
    } else {
        first_invalid(patterns, from + 1)
    }
}

/// `first_invalid` finds the first pattern that is no regular expression,
/// and finds none exactly where all are.
pub proof fn lemma_first_invalid(patterns: Seq<Seq<char>>, from: int)
    requires
        0 <= from,
    ensures
        match first_invalid(patterns, from) {
            Some(i) => from <= i < patterns.len() && !regex_compiles(patterns[i]) && forall|j: int|
                from <= j < i ==> regex_compiles(#[trigger] patterns[j]),
            None => forall|j: int| from <= j < patterns.len() ==> regex_compiles(#[trigger] patterns[j]),
        },
    decreases patterns.len() - from,
{
    if from < patterns.len() && regex_compiles(patterns[from]) {
        lemma_first_invalid(patterns, from + 1);
    }
}

/// The first pattern of two sequences, one after the other, that is no
/// regular expression is the first such of the first sequence, or else of
/// the second.
pub proof fn lemma_first_invalid_concat(a: Seq<Seq<char>>, b: Seq<Seq<char>>)
    ensures
        first_invalid(a + b, 0) == match first_invalid(a, 0) {
            Some(i) => Some(i),
            None => match first_invalid(b, 0) {
                Some(i) => Some(a.len() + i),
                None => None,
            },
        },
{
    let all = a + b;
    lemma_first_invalid(a, 0);
    lemma_first_invalid(b, 0);
    lemma_first_invalid(all, 0);
    assert forall|j: int| 0 <= j < all.len() implies #[trigger] all[j] == if j < a.len() {
        a[j]
    } else {
        b[j - a.len()]
    } by {}
    match first_invalid(a, 0) {
        Some(i) => {
            assert(all[i] == a[i]);
            if let Some(k) = first_invalid(all, 0) {
                if k < i {
                    assert(all[k] == a[k]);
                }
            }
        },
        None => {
            match first_invalid(b, 0) {
                Some(i) => {
                    assert(all[a.len() + i] == b[i]);
                    if let Some(k) = first_invalid(all, 0) {
                        if k < a.len() {
                            assert(all[k] == a[k]);
                        } else if k < a.len() + i {
                            assert(all[k] == b[k - a.len()]);
                        }
                    }
                },
                None => {
                    if let Some(k) = first_invalid(all, 0) {
                        if k < a.len() {
                            assert(all[k] == a[k]);
                        } else {
                            assert(all[k] == b[k - a.len()]);
                        }
                    }
                },
            }
        },
    }
}

/// Builds the matcher that `query` describes, compiling its patterns in
/// the order written. It succeeds exactly where every pattern is a regular
/// expression; else the error names the first pattern that is none.
pub fn compile(query: &Query) -> (r: Result<Matcher, ParseError>)
    ensures
        match first_invalid(patterns(query@), 0) {
            None => r matches Ok(m) && ast_of(m) == query@,
            Some(i) => r matches Err(ParseError::InvalidRegex { pattern, .. }) && pattern@
                == patterns(query@)[i],
        },
        r is Ok <==> forall|i: int|
            0 <= i < patterns(query@).len() ==> regex_compiles(#[trigger] patterns(query@)[i]),
    decreases query,
{
    proof {
        lemma_first_invalid(patterns(query@), 0);
    }
    match query {
        Query::Regex(pattern) => {
            assert(patterns(query@)[0] == pattern@);
            assert(first_invalid(patterns(query@), 1) is None);
            regex_node(RegexMatcher::new(pattern.as_str()))
        },
        Query::Wildcard => Ok(WildcardMatcher::new()),
        Query::Empty => Ok(empty_matcher()),
        Query::Paren(inner) => match compile(inner) {
            Ok(m) => Ok(ParenMatcher::new(m)),
            Err(e) => Err(e),
        },
        Query::Not(inner) => match compile(inner) {
            Ok(m) => Ok(NotMatcher::new(m)),
            Err(e) => Err(e),
        },
        Query::Then(left, right) => {
            proof {
                lemma_first_invalid_concat(patterns(left@), patterns(right@));
                lemma_first_invalid(patterns(left@), 0);
                lemma_first_invalid(patterns(right@), 0);
                assert forall|i: int| 0 <= i < patterns(right@).len() implies (patterns(left@)
                    + patterns(right@))[patterns(left@).len() + i] == #[trigger] patterns(right@)[i] by {}
                assert forall|i: int| 0 <= i < patterns(left@).len() implies (patterns(left@)
                    + patterns(right@))[i] == #[trigger] patterns(left@)[i] by {}
            }
            match compile(left) {
                Ok(l) => match compile(right) {
                    Ok(r) => Ok(ThenMatcher::new(l, r)),
                    Err(e) => Err(e),
                },
                Err(e) => Err(e),
            }
        },
        Query::Skip(needle, condition) => {
            proof {
                lemma_first_invalid_concat(patterns(needle@), patterns(condition@));
                lemma_first_invalid(patterns(needle@), 0);
                lemma_first_invalid(patterns(condition@), 0);
                assert forall|i: int| 0 <= i < patterns(condition@).len() implies (patterns(needle@)
                    + patterns(condition@))[patterns(needle@).len() + i] == #[trigger] patterns(condition@)[i] by {}
                assert forall|i: int| 0 <= i < patterns(needle@).len() implies (patterns(needle@)
                    + patterns(condition@))[i] == #[trigger] patterns(needle@)[i] by {}
            }
            match compile(needle) {
                Ok(n) => match compile(condition) {
                    Ok(c) => Ok(SkipMatcher::with_condition(n, c)),
                    Err(e) => Err(e),
                },
                Err(e) => Err(e),
            }
        },
        Query::Or(left, right) => {
            proof {
                lemma_first_invalid_concat(patterns(left@), patterns(right@));
                lemma_first_invalid(patterns(left@), 0);
                lemma_first_invalid(patterns(right@), 0);
                assert forall|i: int| 0 <= i < patterns(right@).len() implies (patterns(left@)
                    + patterns(right@))[patterns(left@).len() + i] == #[trigger] patterns(right@)[i] by {}
                assert forall|i: int| 0 <= i < patterns(left@).len() implies (patterns(left@)
                    + patterns(right@))[i] == #[trigger] patterns(left@)[i] by {}
            }
            match compile(left) {
                Ok(l) => match compile(right) {
                    Ok(r) => Ok(OrMatcher::new(l, r)),
                    Err(e) => Err(e),
                },
                Err(e) => Err(e),
            }
        },
    }
}

/// Reads a query and builds its matcher.
///
/// A text that is not built as a query is gives the syntax error that says
/// what is missing and where. A query succeeds exactly where every one of
/// its patterns is a regular expression; else the error names the first
/// pattern that is none.
pub fn parse_matcher(s: &str) -> (r: Result<Matcher, ParseError>)
    ensures
        match spec_parse(s@) {
            Ok(query) => match first_invalid(patterns(query), 0) {
                None => r matches Ok(m) && ast_of(m) == query,
                Some(i) => r matches Err(ParseError::InvalidRegex { pattern, .. }) && pattern@
                    == patterns(query)[i],
            },
            Err((expected, at)) => r matches Err(ParseError::Syntax { expected: x, offset: o })
                && x == expected && o == at,
        },
        r is Ok <==> (spec_parse(s@) matches Ok(query) && forall|i: int|
            0 <= i < patterns(query).len() ==> regex_compiles(#[trigger] patterns(query)[i])),
{
    match parse_query(s) {
        Ok(query) => {
            proof {
                lemma_first_invalid(patterns(query@), 0);
            }
            compile(&query)
        },
        Err(e) => Err(e),
    }
}

/// What a matcher finds depends on nothing but the query that it was
/// compiled from: two matchers that say the same match the same, and find
/// the same.
pub proof fn law_query_decides(one: Matcher, other: Matcher, s: Seq<Seq<char>>)
    requires
        ast_of(one) == ast_of(other),
    ensures
        one.spec_match(s) == other.spec_match(s),
        one.spec_search(s) == other.spec_search(s),
{
    lemma_same_match(one, other, s);
    let any = crate::matcher::spec_empty();
    lemma_same_search(one, other, any, any, s, 0);
}

/// Two matchers that say the same match the same.
proof fn lemma_same_match(one: Matcher, other: Matcher, s: Seq<Seq<char>>)
    requires
        ast_of(one) == ast_of(other),
    ensures
        one.spec_match(s) == other.spec_match(s),
    decreases one.size(), 1nat, 0nat,
{
    match (*one.object, *other.object) {
        (Combinator::Paren(p), Combinator::Paren(q)) => {
            lemma_same_match(p.matcher, q.matcher, s);
        },
        (Combinator::Not(p), Combinator::Not(q)) => {
            lemma_same_match(p.matcher, q.matcher, s);
        },
        (Combinator::Then(p), Combinator::Then(q)) => {
            lemma_same_match(p.left, q.left, s);
            if let Ok(n) = p.left.spec_match(s) {
                lemma_same_match(p.right, q.right, s.skip(n as int));
            }
        },
        (Combinator::Skip(p), Combinator::Skip(q)) => {
            lemma_same_search(p.needle, q.needle, p.condition, q.condition, s, 0);
        },
        (Combinator::Or(p), Combinator::Or(q)) => {
            lemma_same_match(p.left, q.left, s);
            lemma_same_match(p.right, q.right, s);
        },
        _ => {},
    }
}

/// Two searches that say the same find the same.
proof fn lemma_same_search(
    one: Matcher,
    other: Matcher,
    condition: Matcher,
    other_condition: Matcher,
    s: Seq<Seq<char>>,
    dropped: nat,
)
    requires
        ast_of(one) == ast_of(other),
        ast_of(condition) == ast_of(other_condition),
    ensures
        one.spec_search_from(condition, s, dropped) == other.spec_search_from(
            other_condition,
            s,
            dropped,
        ),
    decreases one.size() + condition.size(), 0nat, s.len() - dropped,
{
    Matcher::lemma_size_positive(one);
    Matcher::lemma_size_positive(condition);
    if dropped < s.len() {
        lemma_same_match(one, other, s.skip(dropped as int));
        lemma_same_match(condition, other_condition, s.skip(dropped as int));
        lemma_same_search(one, other, condition, other_condition, s, dropped + 1);
    }
}

} // verus!
