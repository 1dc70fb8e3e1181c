//! Matchers test a query against a stack trace: a small combinator language
//! over ordered sequences of frames.
//!
//! A stack is listed bottom frame first. Every matcher has one primitive,
//! `match_trace`, which matches at the front of a stack and hands back what
//! is left of it, or fails in one of two ways. `search_trace` slides a
//! matcher along the stack until it matches.

use crate::pattern::{regex_compiles, regex_matches, Pattern, PatternError};
use crate::text::{push_text, texts};
use vstd::prelude::*;
use vstd::slice::slice_subrange;

verus! {

/// How a matcher fails.
#[derive(Copy, Clone, Debug, PartialEq, Eq, Structural)]
pub enum MatchError {
    /// No match at this position; the search may drop the bottom frame and
    /// try again one frame up.
    RecoverableError,
    /// No match, and the search must stop: a skip has committed to its
    /// anchor, and sliding past it would find a match that nobody meant.
    IrrecoverableError,
}

/// Where a search found its match, as two offsets into the stack.
#[derive(Copy, Clone, Debug, PartialEq, Eq, Structural)]
pub struct SearchResult {
    /// How many frames were dropped from the bottom before the match began.
    pub first_matching_frame: usize,
    /// The index of the first frame after the matched region.
    pub first_callee_frame: usize,
}

/// Consumes one frame that matches a regular expression.
pub struct RegexMatcher {
    pattern: Pattern,
}

/// Consumes any one frame.
pub struct WildcardMatcher {}

/// Always succeeds, consuming no frames.
pub struct EmptyMatcher {}

/// Groups a matcher; matches as the matcher inside does.
pub struct ParenMatcher {
    pub matcher: Matcher,
}

/// Succeeds, consuming no frames, exactly when the matcher inside fails.
pub struct NotMatcher {
    pub matcher: Matcher,
}

/// Matches `left`, then `right` on what follows.
pub struct ThenMatcher {
    pub left: Matcher,
    pub right: Matcher,
}

/// Searches for `needle`, dropping frames only while `condition` succeeds.
pub struct SkipMatcher {
    pub needle: Matcher,
    pub condition: Matcher,
}

/// Matches `left`, or else `right` at the same position.
pub struct OrMatcher {
    pub left: Matcher,
    pub right: Matcher,
}

/// The kinds of node in a query.
pub enum Combinator {
    Regex(RegexMatcher),
    Wildcard(WildcardMatcher),
    Empty(EmptyMatcher),
    Paren(ParenMatcher),
    Not(NotMatcher),
    Then(ThenMatcher),
    Skip(SkipMatcher),
    Or(OrMatcher),
}

/// A query over stacks: a tree of combinators.
pub struct Matcher {
    pub object: Box<Combinator>,
}

impl RegexMatcher {
    /// The source text of the regular expression.
    pub closed spec fn pattern(&self) -> Seq<char> {
        self.pattern@
    }

    /// Whether the regular expression matches somewhere in `frame`.
    pub fn is_match(&self, frame: &str) -> (b: bool)
        ensures
            b == regex_matches(self.pattern(), frame@),
    {
        self.pattern.is_match(frame)
    }

    /// The source text of the regular expression.
    pub fn text(&self) -> (t: &str)
        ensures
            t@ == self.pattern(),
    {
        self.pattern.text()
    }

    /// The matcher for one frame that `compiled` stands for, if a pattern
    /// was compiled; else the error that it holds.
    pub fn from_pattern(compiled: Result<Pattern, PatternError>) -> (m: Result<
        Matcher,
        PatternError,
    >)
        ensures
            match compiled {
                Ok(pattern) => m matches Ok(x) && *x.object matches Combinator::Regex(re)
                    && re.pattern() == pattern@,
                Err(e) => m == Err::<Matcher, PatternError>(e),
            },
    {
        match compiled {
            Ok(pattern) => Ok(
                Matcher { object: Box::new(Combinator::Regex(RegexMatcher { pattern })) },
            ),
            Err(e) => Err(e),
        }
    }

    /// A matcher for one frame that matches the regular expression `r`,
    /// where `r` is one; else the error that names `r`.
    pub fn new(r: &str) -> (m: Result<Matcher, PatternError>)
        ensures
            m is Ok <==> regex_compiles(r@),
            match m {
                Ok(x) => *x.object matches Combinator::Regex(re) && re.pattern() == r@,
                Err(e) => e.pattern@ == r@,
            },
    {
        RegexMatcher::from_pattern(Pattern::new(r))
    }
}

impl WildcardMatcher {
    /// A matcher for any one frame.
    pub fn new() -> (m: Matcher)
        ensures
            *m.object is Wildcard,
    {
        Matcher { object: Box::new(Combinator::Wildcard(WildcardMatcher {  })) }
    }
}

impl EmptyMatcher {
    /// The matcher that always succeeds and consumes nothing.
    pub fn new() -> (m: Matcher)
        ensures
            *m.object is Empty,
    {
        Matcher { object: Box::new(Combinator::Empty(EmptyMatcher {  })) }
    }
}

impl ParenMatcher {
    /// `other` in parentheses.
    pub fn new(other: Matcher) -> (m: Matcher)
        ensures
            *m.object matches Combinator::Paren(p) && p.matcher == other,
    {
        Matcher { object: Box::new(Combinator::Paren(ParenMatcher { matcher: other })) }
    }
}

impl NotMatcher {
    /// The negation of `other`.
    pub fn new(other: Matcher) -> (m: Matcher)
        ensures
            *m.object matches Combinator::Not(p) && p.matcher == other,
    {
        Matcher { object: Box::new(Combinator::Not(NotMatcher { matcher: other })) }
    }
}

impl ThenMatcher {
    /// `left` followed by `right`.
    pub fn new(left: Matcher, right: Matcher) -> (m: Matcher)
        ensures
            *m.object matches Combinator::Then(p) && p.left == left && p.right == right,
    {
        Matcher { object: Box::new(Combinator::Then(ThenMatcher { left, right })) }
    }
}

impl SkipMatcher {
    /// A search for `needle` that may drop any frame.
    pub fn new(needle: Matcher) -> (m: Matcher)
        ensures
            *m.object matches Combinator::Skip(p) && p.needle == needle && *p.condition.object is Empty,
    {
        SkipMatcher::with_condition(needle, empty_matcher())
    }

    /// A search for `needle` that drops a frame only where `condition`
    /// succeeds on the stack that starts with it.
    pub fn with_condition(needle: Matcher, condition: Matcher) -> (m: Matcher)
        ensures
            *m.object matches Combinator::Skip(p) && p.needle == needle && p.condition == condition,
    {
        Matcher { object: Box::new(Combinator::Skip(SkipMatcher { needle, condition })) }
    }
}

impl OrMatcher {
    /// `left`, or else `right`.
    pub fn new(left: Matcher, right: Matcher) -> (m: Matcher)
        ensures
            *m.object matches Combinator::Or(p) && p.left == left && p.right == right,
    {
        Matcher { object: Box::new(Combinator::Or(OrMatcher { left, right })) }
    }
}

/// The matcher that always succeeds and consumes nothing.
pub fn empty_matcher() -> (m: Matcher)
    ensures
        *m.object is Empty,
{
    EmptyMatcher::new()
}

impl Matcher {
    /// The number of nodes in the tree.
    pub open spec fn size(self) -> nat
        decreases self,
    {
        match *self.object {
            Combinator::Regex(_) => 1,
            Combinator::Wildcard(_) => 1,
            Combinator::Empty(_) => 1,
            Combinator::Paren(p) => 1 + p.matcher.size(),
            Combinator::Not(p) => 1 + p.matcher.size(),
            Combinator::Then(p) => 1 + p.left.size() + p.right.size(),
            Combinator::Skip(p) => 1 + p.needle.size() + p.condition.size(),
            Combinator::Or(p) => 1 + p.left.size() + p.right.size(),
        }
    }

    /// What matching at the front of `s` gives: the number of frames
    /// consumed, or the way it fails.
    pub open spec fn spec_match(self, s: Seq<Seq<char>>) -> Result<nat, MatchError>
        decreases self.size(), 1nat, 0nat,
    {
        match *self.object {
            Combinator::Regex(re) => if s.len() > 0 && regex_matches(re.pattern(), s[0]) {
                Ok(1)
            } else {
                Err(MatchError::RecoverableError)
            },
            Combinator::Wildcard(_) => if s.len() > 0 {
                Ok(1)
            } else {
                Err(MatchError::RecoverableError)
            },
            Combinator::Empty(_) => Ok(0),
            Combinator::Paren(p) => p.matcher.spec_match(s),
            Combinator::Not(p) => match p.matcher.spec_match(s) {
                Ok(_) => Err(MatchError::RecoverableError),
                Err(_) => Ok(0),
            },
            Combinator::Then(p) => match p.left.spec_match(s) {
                Ok(n) => match p.right.spec_match(s.skip(n as int)) {
                    Ok(k) => Ok(n + k),
                    Err(e) => Err(e),
                },
                Err(e) => Err(e),
            },
            Combinator::Skip(p) => match p.needle.spec_search_from(p.condition, s, 0) {
                Some((_, end)) => Ok(end),
                None => Err(MatchError::IrrecoverableError),
            },
            Combinator::Or(p) => match p.left.spec_match(s) {
                Ok(n) => Ok(n),
                Err(MatchError::RecoverableError) => p.right.spec_match(s),
                Err(MatchError::IrrecoverableError) => Err(MatchError::IrrecoverableError),
            },
        }
    }

    /// The search once `dropped` frames of `s` have been dropped: the first
    /// position from there at which `self` matches, with the position just
    /// after the match. The search gives up where the stack is used up,
    /// where `self` fails irrecoverably, and where `self` fails recoverably
    /// on a stack on which `condition` fails.
    pub open spec fn spec_search_from(
        self,
        condition: Matcher,
        s: Seq<Seq<char>>,
        dropped: nat,
    ) -> Option<(nat, nat)>
        decreases self.size() + condition.size(), 0nat, s.len() - dropped,
    {
        if dropped >= s.len() {
            None
        } else {
            match self.spec_match(s.skip(dropped as int)) {
                Ok(n) => Some((dropped, dropped + n)),
                Err(MatchError::RecoverableError) => if condition.spec_match(
                    s.skip(dropped as int),
                ) is Err {
                    None
                } else {
                    self.spec_search_from(condition, s, dropped + 1)
                },
                Err(MatchError::IrrecoverableError) => None,
            }
        }
    }

    /// The search over the whole of `s`, dropping frames while `condition`
    /// succeeds.
    pub open spec fn spec_search_while(self, s: Seq<Seq<char>>, condition: Matcher) -> Option<
        (nat, nat),
    > {
        self.spec_search_from(condition, s, 0)
    }

    /// The unconstrained search over the whole of `s`.
    pub open spec fn spec_search(self, s: Seq<Seq<char>>) -> Option<(nat, nat)> {
        self.spec_search_while(s, Matcher { object: Box::new(Combinator::Empty(EmptyMatcher {  })) })
    }

    /// A match never consumes more frames than the stack holds.
    pub proof fn lemma_match_bound(self, s: Seq<Seq<char>>)
        ensures
            self.spec_match(s) matches Ok(n) ==> n <= s.len(),
        decreases self.size(), 1nat, 0nat,
    {
        match *self.object {
            Combinator::Paren(p) => {
                p.matcher.lemma_match_bound(s);
            },
            Combinator::Then(p) => {
                p.left.lemma_match_bound(s);
                if let Ok(n) = p.left.spec_match(s) {
                    p.right.lemma_match_bound(s.skip(n as int));
                }
            },
            Combinator::Skip(p) => {
                p.needle.lemma_search_bounds(p.condition, s, 0);
            },
            Combinator::Or(p) => {
                p.left.lemma_match_bound(s);
                p.right.lemma_match_bound(s);
            },
            _ => {},
        }
    }

    /// A search reports its offsets in order and within the stack, and the
    /// match it reports is the match of `self` at the first offset.
    pub proof fn lemma_search_bounds(self, condition: Matcher, s: Seq<Seq<char>>, dropped: nat)
        ensures
            self.spec_search_from(condition, s, dropped) matches Some((first, end)) ==> dropped
                <= first < s.len() && first <= end <= s.len() && self.spec_match(
                s.skip(first as int),
            ) == Ok::<nat, MatchError>((end - first) as nat),
        decreases self.size() + condition.size(), 0nat, s.len() - dropped,
    {
        Self::lemma_size_positive(condition);
        if dropped < s.len() {
            self.lemma_match_bound(s.skip(dropped as int));
            self.lemma_search_bounds(condition, s, dropped + 1);
        }
    }

    /// Every matcher has at least one node.
    pub proof fn lemma_size_positive(m: Matcher)
        ensures
            m.size() >= 1,
    {
    }

    /// Tries to match `self` at the front of `s`, without dropping any
    /// frame. On success the result is the part of `s` that follows the
    /// match.
    pub fn match_trace<'stack>(&self, s: &'stack [String]) -> (r: Result<
        &'stack [String],
        MatchError,
    >)
        ensures
            match self.spec_match(texts(s@)) {
                Ok(n) => r matches Ok(suffix) && n <= s@.len() && suffix@ == s@.skip(n as int),
                Err(e) => r matches Err(f) && f == e,
            },
        decreases self.size(), 1nat,
    {
        proof {
            self.lemma_match_bound(texts(s@));
        }
        match &*self.object {
            Combinator::Regex(re) => {
                if s.len() > 0 && re.is_match(s[0].as_str()) {
                    let suffix = slice_subrange(s, 1, s.len());
                    assert(suffix@ =~= s@.skip(1));
                    Ok(suffix)
                } else {
                    Err(MatchError::RecoverableError)
                }
            },
            Combinator::Wildcard(_) => {
                if s.len() > 0 {
                    let suffix = slice_subrange(s, 1, s.len());
                    assert(suffix@ =~= s@.skip(1));
                    Ok(suffix)
                } else {
                    Err(MatchError::RecoverableError)
                }
            },
            Combinator::Empty(_) => {
                assert(s@ =~= s@.skip(0));
                Ok(s)
            },
            Combinator::Paren(p) => p.matcher.match_trace(s),
            Combinator::Not(p) => {
                match p.matcher.match_trace(s) {
                    Ok(_) => Err(MatchError::RecoverableError),
                    Err(_) => {
                        assert(s@ =~= s@.skip(0));
                        Ok(s)
                    },
                }
            },
            Combinator::Then(p) => {
                match p.left.match_trace(s) {
                    Ok(t) => {
                        let ghost n = p.left.spec_match(texts(s@))->Ok_0;
                        assert(texts(t@) =~= texts(s@).skip(n as int));
                        match p.right.match_trace(t) {
                            Ok(u) => {
                                let ghost k = p.right.spec_match(texts(t@))->Ok_0;
                                assert(u@ =~= s@.skip((n + k) as int));
                                Ok(u)
                            },
                            Err(e) => Err(e),
                        }
                    },
                    Err(e) => Err(e),
                }
            },
            Combinator::Skip(p) => {
                match p.needle.search_trace_while(s, &p.condition) {
                    Some(found) => {
                        let suffix = slice_subrange(s, found.first_callee_frame, s.len());
                        assert(suffix@ =~= s@.skip(found.first_callee_frame as int));
                        Ok(suffix)
                    },
                    None => Err(MatchError::IrrecoverableError),
                }
            },
            Combinator::Or(p) => {
                match p.left.match_trace(s) {
                    Ok(t) => Ok(t),
                    Err(MatchError::RecoverableError) => p.right.match_trace(s),
                    Err(MatchError::IrrecoverableError) => Err(MatchError::IrrecoverableError),
                }
            },
        }
    }

    /// Tries to match `self` against `input`; where that fails recoverably,
    /// drops the bottom frame and tries again, as long as frames are left.
    pub fn search_trace(&self, input: &[String]) -> (r: Option<SearchResult>)
        ensures
            match r {
                Some(found) => self.spec_search(texts(input@)) == Some(
                    (found.first_matching_frame as nat, found.first_callee_frame as nat),
                ) && found.first_matching_frame <= found.first_callee_frame <= input@.len(),
                None => self.spec_search(texts(input@)) is None,
            },
    {
        let condition = empty_matcher();
        self.search_trace_while(input, &condition)
    }

    /// Like `search_trace`, except that a frame is dropped only where
    /// `condition` succeeds on the stack that starts with it; where it
    /// fails, the search gives up.
    pub fn search_trace_while(&self, input: &[String], condition: &Matcher) -> (r: Option<
        SearchResult,
    >)
        ensures
            match r {
                Some(found) => self.spec_search_while(texts(input@), *condition) == Some(
                    (found.first_matching_frame as nat, found.first_callee_frame as nat),
                ) && found.first_matching_frame <= found.first_callee_frame <= input@.len(),
                None => self.spec_search_while(texts(input@), *condition) is None,
            },
        decreases self.size() + condition.size(), 0nat,
    {
        let ghost all = texts(input@);
        let mut stack = input;
        let mut dropped: usize = 0;
        proof {
            Self::lemma_size_positive(*self);
            Self::lemma_size_positive(*condition);
            self.lemma_search_bounds(*condition, all, 0);
            assert(stack@ =~= input@.skip(0));
        }
        while !stack.is_empty()
            invariant
                all == texts(input@),
                dropped <= input@.len(),
                stack@ == input@.skip(dropped as int),
                self.size() >= 1,
                condition.size() >= 1,
                self.spec_search_from(*condition, all, dropped as nat) == self.spec_search_while(
                    all,
                    *condition,
                ),
                self.spec_search_while(all, *condition) matches Some((first, end)) ==> first
                    <= end <= input@.len(),
            decreases stack@.len(),
        {
            assert(texts(stack@) =~= all.skip(dropped as int));
            assert(dropped < input.len());
            match self.match_trace(stack) {
                Ok(suffix) => {
                    return Some(
                        SearchResult {
                            first_matching_frame: dropped,
                            first_callee_frame: input.len() - suffix.len(),
                        },
                    );
                },
                Err(MatchError::RecoverableError) => {
                    if condition.match_trace(stack).is_err() {
                        return None;
                    }
                    let rest = slice_subrange(stack, 1, stack.len());
                    assert(rest@ =~= input@.skip(dropped + 1));
                    dropped += 1;
                    stack = rest;
                },
                Err(MatchError::IrrecoverableError) => {
                    return None;
                },
            }
        }
        None
    }

    /// The query as text: patterns in braces, `.` for any frame, `()` for
    /// the empty matcher, `!` before what must not match, `,` between what
    /// follows one another, `/` between alternatives, and `..` before what
    /// is searched for, with ` while ` and the condition after it unless
    /// any frame may be dropped.
    pub open spec fn spec_text(self) -> Seq<char>
        decreases self,
    {
        match *self.object {
            Combinator::Regex(re) => "{"@ + re.pattern() + "}"@,
            Combinator::Wildcard(_) => "."@,
            Combinator::Empty(_) => "()"@,
            Combinator::Paren(p) => "("@ + p.matcher.spec_text() + ")"@,
            Combinator::Not(p) => "!"@ + p.matcher.spec_text(),
            Combinator::Then(p) => p.left.spec_text() + ","@ + p.right.spec_text(),
            Combinator::Skip(p) => if *p.condition.object is Empty {
                ".."@ + p.needle.spec_text()
            } else {
                ".."@ + p.needle.spec_text() + " while "@ + p.condition.spec_text()
            },
            Combinator::Or(p) => p.left.spec_text() + "/"@ + p.right.spec_text(),
        }
    }

    /// Appends the query as text to `out`.
    pub fn write_text(&self, out: &mut String)
        ensures
            final(out)@ == old(out)@ + self.spec_text(),
        decreases self,
    {
        let ghost start = out@;
        match &*self.object {
            Combinator::Regex(re) => {
                push_text(out, "{");
                push_text(out, re.text());
                push_text(out, "}");
                assert(out@ =~= start + self.spec_text());
            },
            Combinator::Wildcard(_) => {
                push_text(out, ".");
            },
            Combinator::Empty(_) => {
                push_text(out, "()");
            },
            Combinator::Paren(p) => {
                push_text(out, "(");
                p.matcher.write_text(out);
                push_text(out, ")");
                assert(out@ =~= start + self.spec_text());
            },
            Combinator::Not(p) => {
                push_text(out, "!");
                p.matcher.write_text(out);
                assert(out@ =~= start + self.spec_text());
            },
            Combinator::Then(p) => {
                p.left.write_text(out);
                push_text(out, ",");
                p.right.write_text(out);
                assert(out@ =~= start + self.spec_text());
            },
            Combinator::Skip(p) => {
                push_text(out, "..");
                p.needle.write_text(out);
                if !p.condition.is_empty() {
                    push_text(out, " while ");
                    p.condition.write_text(out);
                }
                assert(out@ =~= start + self.spec_text());
            },
            Combinator::Or(p) => {
                p.left.write_text(out);
                push_text(out, "/");
                p.right.write_text(out);
                assert(out@ =~= start + self.spec_text());
            },
        }
    }

    /// The query as text.
    pub fn describe(&self) -> (text: String)
        ensures
            text@ == self.spec_text(),
    {
        let mut text = String::new();
        self.write_text(&mut text);
        assert(text@ =~= self.spec_text());
        text
    }

    /// True if this is the empty matcher.
    pub fn is_empty(&self) -> (b: bool)
        ensures
            b == (*self.object is Empty),
    {
        match *self.object {
            Combinator::Empty(_) => true,
            _ => false,
        }
    }
}

/// What a query says, with its regular expressions as text.
pub enum Ast {
    /// `{pattern}`: one frame that matches the pattern.
    Regex(Seq<char>),
    /// `.`: any one frame.
    Wildcard,
    /// Nothing; the condition of a search that may drop any frame.
    Empty,
    /// `(m)`.
    Paren(Box<Ast>),
    /// Succeeds where the query inside fails.
    Not(Box<Ast>),
    /// One query, then another on what follows.
    Then(Box<Ast>, Box<Ast>),
    /// A search for the first query, dropping frames while the second
    /// succeeds.
    Skip(Box<Ast>, Box<Ast>),
    /// `l/r`: one query, or else another.
    Or(Box<Ast>, Box<Ast>),
}

/// What a matcher says: the query that it was compiled from.
pub open spec fn ast_of(matcher: Matcher) -> Ast
    decreases matcher,
{
    match *matcher.object {
        Combinator::Regex(re) => Ast::Regex(re.pattern()),
        Combinator::Wildcard(_) => Ast::Wildcard,
        Combinator::Empty(_) => Ast::Empty,
        Combinator::Paren(p) => Ast::Paren(Box::new(ast_of(p.matcher))),
        Combinator::Not(p) => Ast::Not(Box::new(ast_of(p.matcher))),
        Combinator::Then(p) => Ast::Then(Box::new(ast_of(p.left)), Box::new(ast_of(p.right))),
        Combinator::Skip(p) => Ast::Skip(
            Box::new(ast_of(p.needle)),
            Box::new(ast_of(p.condition)),
        ),
        Combinator::Or(p) => Ast::Or(Box::new(ast_of(p.left)), Box::new(ast_of(p.right))),
    }
}

impl Clone for Matcher {
    /// A matcher that says the same.
    fn clone(&self) -> (copy: Matcher)
        ensures
            ast_of(copy) == ast_of(*self),
        decreases self,
    {
        match &*self.object {
            Combinator::Regex(re) => Matcher {
                object: Box::new(Combinator::Regex(RegexMatcher { pattern: re.pattern.clone() })),
            },
            Combinator::Wildcard(_) => WildcardMatcher::new(),
            Combinator::Empty(_) => EmptyMatcher::new(),
            Combinator::Paren(p) => ParenMatcher::new(p.matcher.clone()),
            Combinator::Not(p) => NotMatcher::new(p.matcher.clone()),
            Combinator::Then(p) => ThenMatcher::new(p.left.clone(), p.right.clone()),
            Combinator::Skip(p) => SkipMatcher::with_condition(
                p.needle.clone(),
                p.condition.clone(),
            ),
            Combinator::Or(p) => OrMatcher::new(p.left.clone(), p.right.clone()),
        }
    }
}

/// The negation of `m`, as a value of specifications.
pub open spec fn spec_not(m: Matcher) -> Matcher {
    Matcher { object: Box::new(Combinator::Not(NotMatcher { matcher: m })) }
}

/// The empty matcher, as a value of specifications.
pub open spec fn spec_empty() -> Matcher {
    Matcher { object: Box::new(Combinator::Empty(EmptyMatcher {  })) }
}

/// Whatever the stack, a search either finds nothing or reports offsets
/// with `first_matching_frame <= first_callee_frame <= |stack|`.
pub proof fn law_search_offsets_in_order(m: Matcher, condition: Matcher, s: Seq<Seq<char>>)
    ensures
        m.spec_search_while(s, condition) matches Some((first, end)) ==> 0 <= first <= end
            <= s.len(),
        m.spec_search(s) matches Some((first, end)) ==> 0 <= first <= end <= s.len(),
{
    m.lemma_search_bounds(condition, s, 0);
    m.lemma_search_bounds(spec_empty(), s, 0);
}

/// On a stack with at least one frame, the search for the empty matcher
/// succeeds at once: nothing is dropped and nothing is consumed.
pub proof fn law_empty_matches_at_once(s: Seq<Seq<char>>)
    requires
        s.len() > 0,
    ensures
        spec_empty().spec_search(s) == Some((0nat, 0nat)),
{
    assert(spec_empty().spec_match(s.skip(0)) == Ok::<nat, MatchError>(0));
}

/// The unconstrained search for `!m` from `dropped` on succeeds exactly
/// when `m` fails at some position from there on.
pub proof fn lemma_not_search(m: Matcher, s: Seq<Seq<char>>, dropped: nat)
    ensures
        spec_not(m).spec_search_from(spec_empty(), s, dropped) is Some <==> exists|i: int|
            dropped <= i < s.len() && (#[trigger] m.spec_match(s.skip(i))) is Err,
    decreases s.len() - dropped,
{
    if dropped < s.len() {
        lemma_not_search(m, s, dropped + 1);
        let here = s.skip(dropped as int);
        assert(spec_empty().spec_match(here) == Ok::<nat, MatchError>(0));
        assert(spec_not(m).spec_match(here) == match m.spec_match(here) {
            Ok(_) => Err::<nat, MatchError>(MatchError::RecoverableError),
            Err(_) => Ok(0),
        });
        if m.spec_match(s.skip(dropped as int)) is Ok {
            if exists|i: int| dropped <= i < s.len() && (#[trigger] m.spec_match(s.skip(i))) is Err {
                let i = choose|i: int|
                    dropped <= i < s.len() && (#[trigger] m.spec_match(s.skip(i))) is Err;
                assert(dropped + 1 <= i);
            }
        }
    }
}

/// On a stack with at least one frame, the search for `!m` succeeds exactly
/// when the search for `m` finds nothing, provided that `m`, where it is
/// found at all, matches at every position of the stack.
pub proof fn law_not_search(m: Matcher, s: Seq<Seq<char>>)
    requires
        s.len() > 0,
        m.spec_search(s) is Some ==> forall|i: int|
            0 <= i < s.len() ==> (#[trigger] m.spec_match(s.skip(i))) is Ok,
    ensures
        spec_not(m).spec_search(s) is Some <==> m.spec_search(s) is None,
{
    lemma_not_search(m, s, 0);
    if m.spec_search(s) is None {
        assert(m.spec_match(s.skip(0)) is Err);
    }
}

/// The proviso of `law_not_search` leaves out no stack on which the law
/// holds: where `m` is found and yet fails at some position, the search for
/// `!m` succeeds as well.
pub proof fn law_not_search_proviso_needed(m: Matcher, s: Seq<Seq<char>>, i: int)
    requires
        m.spec_search(s) is Some,
        0 <= i < s.len(),
        m.spec_match(s.skip(i)) is Err,
    ensures
        spec_not(m).spec_search(s) is Some,
{
    lemma_not_search(m, s, 0);
}

} // verus!
