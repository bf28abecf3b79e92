//! Fuzzy scoring with `nucleo-matcher`, reusing its scratch buffer.
//!
//! How well a name matches is the matcher's business: the score is named,
//! [`fuzzy_score`], and the rankers that use it are verified for every score
//! it may give.

use vstd::prelude::*;

use nucleo_matcher::pattern::{CaseMatching, Normalization, Pattern};
use nucleo_matcher::{Config, Matcher, Utf32Str};

verus! {

#[verifier::external_type_specification]
#[verifier::external_body]
pub struct ExMatcher(Matcher);

#[verifier::external_type_specification]
#[verifier::external_body]
pub struct ExPattern(Pattern);

/// Longest query scored. The matcher splits a query at spaces into words,
/// none empty, so a query of `n` characters has at most `(n + 1) / 2` words;
/// each word scores at most `u16::MAX`, and the sum must fit in a `u32`,
/// which holds up to 65537 words, that is up to 131073 characters.
pub const MAX_QUERY: usize = 131072;

/// Whether a query holds no word at all: the matcher splits it at spaces.
pub open spec fn blank(q: Seq<char>) -> bool {
    forall|i: int| 0 <= i < q.len() ==> q[i] == ' '
}

/// The score `nucleo-matcher` gives `hay` for the query `query`: parsed with
/// smart case and smart normalisation, and matched by a matcher configured
/// for paths, whose bonuses favour the last path component. `None` means no
/// match. The matcher is deterministic; which characters separate path
/// components is fixed when the library is built (`/` on Unix).
pub uninterp spec fn fuzzy_score(query: Seq<char>, hay: Seq<char>) -> Option<u32>;

/// A compiled query: its text and the pattern parsed from it.
pub struct Query {
    text: String,
    pattern: Pattern,
}

impl View for Query {
    type V = Seq<char>;

    closed spec fn view(&self) -> Seq<char> {
        self.text@
    }
}

/// A matcher tuned for paths, with its scratch buffer.
pub struct Fuzzy {
    matcher: Matcher,
    /// Reused across calls; scoring a list otherwise allocates per candidate.
    buf: Vec<char>,
}

/// `Matcher::new(Config::DEFAULT.match_paths())`: a matcher whose bonuses
/// favour the last path component. Nothing is claimed of it.
#[verifier::external_body]
fn path_matcher() -> Matcher {
    Matcher::new(Config::DEFAULT.match_paths())
}

/// `Pattern::parse` with smart case and smart normalisation. Nothing is
/// claimed of the pattern; `score_with` says what scoring with it gives.
#[verifier::external_body]
fn parse_pattern(text: &str) -> Pattern {
    Pattern::parse(text, CaseMatching::Smart, Normalization::Smart)
}

/// `Pattern::score` on `Utf32Str::new(hay, buf)`. Claimed: the score is
/// [`fuzzy_score`] of the query's text and the haystack, which rests on
/// `query.pattern` having been parsed from `query.text` (as
/// `Fuzzy::pattern`, the only constructor of `Query`, ensures) and on
/// `matcher` coming from `path_matcher` (as in `Fuzzy::new`, the only
/// constructor of `Fuzzy`); the scratch buffer holds no state between calls.
/// And, from the crate's source, a query without words (the pattern has no
/// atoms) gives `Some(0)`. `requires` keeps the sum of the words' scores, at
/// most one `u16` each, within a `u32`, and the haystack within the matcher's
/// limit of `u32::MAX` code points, where the crate asserts. How well a
/// haystack matches is not stated beyond the name.
#[verifier::external_body]
fn score_with(matcher: &mut Matcher, buf: &mut Vec<char>, query: &Query, hay: &str) -> (r: Option<u32>)
    requires
        query@.len() <= MAX_QUERY,
        hay@.len() <= u32::MAX,
    ensures
        r == fuzzy_score(query@, hay@),
        blank(query@) ==> r == Some(0u32),
{
    query.pattern.score(Utf32Str::new(hay, buf), matcher)
}

impl Fuzzy {
    /// A matcher configured for paths, with an empty scratch buffer. Neither
    /// has a model a contract could speak of: what scoring with it gives is
    /// the contract of [`Self::score`], which holds of every `Fuzzy`, and this
    /// is the only way to make one.
    pub fn new() -> (r: Fuzzy) {
        Fuzzy { matcher: path_matcher(), buf: Vec::new() }
    }

    /// Compiles a query. Space-separated terms must all match.
    pub fn pattern(query: &str) -> (r: Query)
        ensures
            r@ == query@,
    {
        Query { text: query.to_owned(), pattern: parse_pattern(query) }
    }

    /// Score of `haystack` against `query`; `None` means no match.
    pub fn score(&mut self, query: &Query, haystack: &str) -> (r: Option<u32>)
        requires
            query@.len() <= MAX_QUERY,
            haystack@.len() <= u32::MAX,
        ensures
            r == fuzzy_score(query@, haystack@),
            blank(query@) ==> r == Some(0u32),
    {
        score_with(&mut self.matcher, &mut self.buf, query, haystack)
    }
}

} // verus!
