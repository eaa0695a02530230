//! Patterns for the names of windows and of the applications that own them.
//!
//! A pattern is written as one text. Where the regular-expression engine
//! accepts that text, the pattern is a regular expression and matches a name
//! in which the engine finds it; where it does not, the pattern is the text
//! itself and matches that name alone.

use crate::text::same_text;
use vstd::prelude::*;
use vstd::string::*;

verus! {

/// Whether the regular-expression engine accepts the text `pattern`.
pub uninterp spec fn regex_compiles(pattern: Seq<char>) -> bool;

/// Whether the regular expression written as `pattern` is found somewhere in `haystack`.
pub uninterp spec fn regex_finds(pattern: Seq<char>, haystack: Seq<char>) -> bool;

/// `regex::Regex::new`: whether the engine compiles `pattern`. The contract
/// gives that outcome its name and claims nothing else of it.
#[verifier::external_body]
fn compiles(pattern: &str) -> (ok: bool)
    ensures
        ok == regex_compiles(pattern@),
{
    regex::Regex::new(pattern).is_ok()
}

/// `regex::Regex::is_match`, on the expression compiled from `pattern`:
/// whether it is found anywhere in `haystack`. An expression that the engine
/// does not compile is found nowhere. The contract gives the outcome of the
/// search its name and claims nothing else of it.
#[verifier::external_body]
fn finds(pattern: &str, haystack: &str) -> (found: bool)
    ensures
        found == (regex_compiles(pattern@) && regex_finds(pattern@, haystack@)),
{
    match regex::Regex::new(pattern) {
        Ok(expression) => expression.is_match(haystack),
        Err(_) => false,
    }
}

/// The text `haystack` with the first place where the regular expression
/// written as `pattern` is found replaced by the expansion of `replacement`.
pub uninterp spec fn regex_replaced(
    pattern: Seq<char>,
    haystack: Seq<char>,
    replacement: Seq<char>,
) -> Seq<char>;

/// `regex::Regex::replace`, on the expression compiled from `pattern`: the
/// haystack with the leftmost match replaced. In `replacement` a dollar sign
/// refers to a capture group, as the engine has it. An expression that the
/// engine does not compile leaves the haystack as it is. The contract gives
/// the outcome of the replacement its name and claims nothing else of it.
#[verifier::external_body]
pub(crate) fn replaced(pattern: &str, haystack: &str, replacement: &str) -> (out: String)
    ensures
        out@ == if regex_compiles(pattern@) {
            regex_replaced(pattern@, haystack@, replacement@)
        } else {
            haystack@
        },
{
    match regex::Regex::new(pattern) {
        Ok(expression) => expression.replace(haystack, replacement).into_owned(),
        Err(_) => haystack.to_string(),
    }
}

/// The model of [`MaybeRegex`]: a pattern over texts.
pub enum Pattern {
    /// Matches the text that is the same as this one.
    Exact(Seq<char>),
    /// Matches the texts in which this regular expression is found.
    RE(Seq<char>),
}

impl Pattern {
    /// The pattern that a layout means by `text`.
    pub open spec fn parse(text: Seq<char>) -> Pattern {
        if regex_compiles(text) {
            Pattern::RE(text)
        } else {
            Pattern::Exact(text)
        }
    }

    /// The text that the pattern was written as.
    pub open spec fn text(self) -> Seq<char> {
        match self {
            Pattern::Exact(text) => text,
            Pattern::RE(source) => source,
        }
    }

    /// Whether the pattern matches `value`.
    pub open spec fn matches(self, value: Seq<char>) -> bool {
        match self {
            Pattern::Exact(text) => text == value,
            Pattern::RE(source) => regex_compiles(source) && regex_finds(source, value),
        }
    }
}

/// A pattern for a name: an exact text, or a regular expression held as its source.
#[derive(Debug)]
pub enum MaybeRegex {
    Exact(String),
    RE(String),
}

impl View for MaybeRegex {
    type V = Pattern;

    open spec fn view(&self) -> Pattern {
        match self {
            MaybeRegex::Exact(text) => Pattern::Exact(text@),
            MaybeRegex::RE(source) => Pattern::RE(source@),
        }
    }
}

impl Clone for MaybeRegex {
    fn clone(&self) -> (copy: MaybeRegex)
        ensures
            copy == *self,
    {
        match self {
            MaybeRegex::Exact(text) => MaybeRegex::Exact(text.clone()),
            MaybeRegex::RE(source) => MaybeRegex::RE(source.clone()),
        }
    }
}

impl Default for MaybeRegex {
    fn default() -> (pattern: MaybeRegex)
        ensures
            pattern@ == Pattern::Exact(Seq::<char>::empty()),
    {
        MaybeRegex::Exact(String::new())
    }
}

impl MaybeRegex {
    /// The pattern that a layout means by `text`: a regular expression where
    /// the engine compiles it, the exact text where it does not.
    pub fn new(text: String) -> (pattern: MaybeRegex)
        ensures
            pattern@ == Pattern::parse(text@),
    {
        if compiles(text.as_str()) {
            MaybeRegex::RE(text)
        } else {
            MaybeRegex::Exact(text)
        }
    }

    /// The pattern that matches `text` and nothing else.
    pub fn exact(text: String) -> (pattern: MaybeRegex)
        ensures
            pattern@ == Pattern::Exact(text@),
    {
        MaybeRegex::Exact(text)
    }

    /// The text that the pattern was written as.
    pub fn as_str(&self) -> (text: &str)
        ensures
            text@ == self@.text(),
    {
        match self {
            MaybeRegex::Exact(text) => text.as_str(),
            MaybeRegex::RE(source) => source.as_str(),
        }
    }

    /// A copy of the text that the pattern was written as.
    pub fn to_string(&self) -> (text: String)
        ensures
            text@ == self@.text(),
    {
        match self {
            MaybeRegex::Exact(text) => text.clone(),
            MaybeRegex::RE(source) => source.clone(),
        }
    }

    /// Whether the pattern is a regular expression.
    pub fn is_regex(&self) -> (regex: bool)
        ensures
            regex == (self@ is RE),
    {
        match self {
            MaybeRegex::Exact(_) => false,
            MaybeRegex::RE(_) => true,
        }
    }

    /// Whether the pattern matches `value`.
    pub fn matches(&self, value: &str) -> (matched: bool)
        ensures
            matched == self@.matches(value@),
    {
        match self {
            MaybeRegex::Exact(text) => same_text(text.as_str(), value),
            MaybeRegex::RE(source) => finds(source.as_str(), value),
        }
    }
}

/// A pattern read from an exact text matches that text: a name always matches
/// the pattern that stands for it alone.
pub proof fn lemma_exact_matches_itself(text: Seq<char>)
    ensures
        Pattern::Exact(text).matches(text),
        forall|value: Seq<char>| Pattern::Exact(text).matches(value) ==> value == text,
{
}

} // verus!
