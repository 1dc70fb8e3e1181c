//! Regular expressions, as the `regex` crate compiles and runs them.
//!
//! What the crate computes is not proved here. A pattern keeps its source
//! text beside the compiled expression, and the results of matching and of
//! replacing are named as functions of that text. The fields of a pattern
//! are private to this module, and nothing in it makes a pattern but
//! `compile` and `copy`: so the expression of every pattern is the one that
//! `Regex::new` built from its text.

use regex::Regex;
use vstd::prelude::*;

verus! {

/// The compiled regular expression of the `regex` crate, carried opaquely.
#[verifier::external_type_specification]
#[verifier::external_body]
pub struct ExRegex(Regex);

/// The error of the `regex` crate for a text that is no regular expression,
/// carried opaquely.
#[verifier::external_type_specification]
#[verifier::external_body]
pub struct ExRegexError(regex::Error);

/// Whether `pattern` is a regular expression: whether `Regex::new` returns
/// `Ok` for it. That depends on nothing but the text.
pub uninterp spec fn regex_compiles(pattern: Seq<char>) -> bool;

/// Whether the regular expression that `Regex::new` compiles from `pattern`
/// finds a match somewhere in `text`: what `Regex::is_match` returns.
pub uninterp spec fn regex_matches(pattern: Seq<char>, text: Seq<char>) -> bool;

/// `text` with every match of the regular expression that `Regex::new`
/// compiles from `pattern` replaced as `replacement` says: what
/// `Regex::replace_all` returns.
pub uninterp spec fn regex_replace_all(
    pattern: Seq<char>,
    text: Seq<char>,
    replacement: Seq<char>,
) -> Seq<char>;

/// A regular expression: its source text and what it compiles to.
pub struct Pattern {
    text: String,
    regex: Regex,
}

impl View for Pattern {
    type V = Seq<char>;

    /// The source text.
    closed spec fn view(&self) -> Seq<char> {
        self.text@
    }
}

/// Why a text is no regular expression.
#[derive(Debug)]
pub struct PatternError {
    /// The text.
    pub pattern: String,
    /// What the compiler of regular expressions says is wrong with it.
    pub reason: String,
}

impl Pattern {
    /// Calls `Regex::new` on `text`, which returns `Ok` exactly for the
    /// texts that are regular expressions. Where it does, the pattern keeps
    /// the compiled expression together with the text.
    #[verifier::external_body]
    pub(crate) fn compile(text: &str) -> (compiled: Result<Pattern, regex::Error>)
        ensures
            compiled is Ok <==> regex_compiles(text@),
            compiled matches Ok(pattern) ==> pattern@ == text@,
    {
        match Regex::new(text) {
            Ok(regex) => Ok(Pattern { text: text.to_string(), regex }),
            Err(error) => Err(error),
        }
    }

    /// Calls `to_string` on the error, which writes it out as `regex`
    /// displays it. Nothing is claimed about the text.
    #[verifier::external_body]
    pub(crate) fn explain(error: &regex::Error) -> String {
        error.to_string()
    }

    /// Calls `Regex::clone` on the compiled expression, which hands back
    /// the same expression, and copies the text beside it.
    #[verifier::external_body]
    pub(crate) fn copy(&self) -> (copy: Pattern)
        ensures
            copy@ == self@,
    {
        Pattern { text: self.text.clone(), regex: self.regex.clone() }
    }

    /// Calls `Regex::is_match` on the compiled expression, which tells
    /// whether it matches anywhere in `text`. A `Pattern` is only ever made
    /// by `compile`, so the expression is the one that `Regex::new` built
    /// from the source text.
    #[verifier::external_body]
    pub(crate) fn is_match(&self, text: &str) -> (found: bool)
        ensures
            found == regex_matches(self@, text@),
    {
        self.regex.is_match(text)
    }

    /// Calls `Regex::replace_all` on the compiled expression, which
    /// replaces every match in `text`, none overlapping another, as
    /// `replacement` says.
    #[verifier::external_body]
    pub(crate) fn replace_all(&self, text: &str, replacement: &str) -> (replaced: String)
        ensures
            replaced@ == regex_replace_all(self@, text@, replacement@),
    {
        self.regex.replace_all(text, replacement).into_owned()
    }

    /// What becomes of the text `text` once it has been handed to the
    /// compiler of regular expressions: the pattern that came back, or the
    /// error that names the text.
    pub fn from_compiled(text: &str, compiled: Result<Pattern, regex::Error>) -> (r: Result<
        Pattern,
        PatternError,
    >)
        ensures
            match compiled {
                Ok(pattern) => r == Ok::<Pattern, PatternError>(pattern),
                Err(_) => r matches Err(e) && e.pattern@ == text@,
            },
    {
        match compiled {
            Ok(pattern) => Ok(pattern),
            Err(error) => Err(
                PatternError { pattern: text.to_owned(), reason: Pattern::explain(&error) },
            ),
        }
    }

    /// The regular expression with the source text `text`, where the text
    /// is one; else the error that names the text.
    pub fn new(text: &str) -> (r: Result<Pattern, PatternError>)
        ensures
            r is Ok <==> regex_compiles(text@),
            match r {
                Ok(pattern) => pattern@ == text@,
                Err(e) => e.pattern@ == text@,
            },
    {
        Pattern::from_compiled(text, Pattern::compile(text))
    }

    /// The source text.
    pub fn text(&self) -> (text: &str)
        ensures
            text@ == self@,
    {
        self.text.as_str()
    }
}

impl Clone for Pattern {
    /// The same regular expression once more.
    fn clone(&self) -> (copy: Pattern)
        ensures
            copy@ == self@,
    {
        self.copy()
    }
}

} // verus!
