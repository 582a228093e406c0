//! Regular expressions, compiled and run by the `regex` crate.
//!
//! What a regular expression matches is not restated here: the results of
//! the crate's functions are named (`regex_compiles`, `regex_is_match`,
//! `regex_named_captures`) and the rest of the library is stated over those
//! names.
use vstd::prelude::*;

verus! {

#[verifier::external_type_specification]
#[verifier::external_body]
pub struct ExRegex(regex::Regex);

#[verifier::external_type_specification]
#[verifier::external_body]
pub struct ExRegexError(regex::Error);

/// Whether `regex::Regex::new` accepts `pattern` (it refuses invalid
/// patterns and patterns whose compiled form exceeds the default size limit).
pub uninterp spec fn regex_compiles(pattern: Seq<char>) -> bool;

/// Whether the regular expression `pattern` matches somewhere in `haystack`
/// (`regex::Regex::is_match`).
pub uninterp spec fn regex_is_match(pattern: Seq<char>, haystack: Seq<char>) -> bool;

/// For each successive non-overlapping match of `pattern` in `haystack`
/// (`regex::Regex::captures_iter`), the text of each group named in `names`
/// (`regex::Captures::name`), `None` where that group took no part.
pub uninterp spec fn regex_named_captures(
    pattern: Seq<char>,
    haystack: Seq<char>,
    names: Seq<Seq<char>>,
) -> Seq<Seq<Option<Seq<char>>>>;

/// A pattern that `regex::Regex::new` refused.
#[derive(Debug, Clone, Copy, PartialEq, Eq, Structural)]
pub struct PatternError;

/// A compiled regular expression, viewed as the pattern it was compiled from.
pub struct Pattern {
    regex: regex::Regex,
    source: Ghost<Seq<char>>,
}

impl View for Pattern {
    type V = Seq<char>;

    closed spec fn view(&self) -> Seq<char> {
        self.source@
    }
}

/// Compiles `pattern` with `regex::Regex::new`. The contract claims that the
/// call succeeds exactly when `regex_compiles` holds of the pattern, and that
/// the compiled value is viewed as the pattern it came from.
#[verifier::external_body]
fn compile(pattern: &str) -> (r: Result<Pattern, regex::Error>)
    ensures
        r is Ok <==> regex_compiles(pattern@),
        r matches Ok(p) ==> p@ == pattern@,
{
    match regex::Regex::new(pattern) {
        Ok(regex) => Ok(Pattern { regex, source: Ghost(pattern@) }),
        Err(e) => Err(e),
    }
}

impl Pattern {
    /// Compiles `pattern`.
    pub fn new(pattern: &str) -> (r: Result<Pattern, PatternError>)
        ensures
            r is Ok <==> regex_compiles(pattern@),
            r matches Ok(p) ==> p@ == pattern@,
    {
        match compile(pattern) {
            Ok(p) => Ok(p),
            Err(_) => Err(PatternError),
        }
    }

    /// Whether the pattern matches somewhere in `haystack`
    /// (`regex::Regex::is_match`). The contract claims that the answer is
    /// `regex_is_match` of the pattern and the haystack.
    #[verifier::external_body]
    pub(crate) fn is_match(&self, haystack: &str) -> (b: bool)
        ensures
            b == regex_is_match(self@, haystack@),
    {
        self.regex.is_match(haystack)
    }

    /// The named groups of every match in `haystack`
    /// (`regex::Regex::captures_iter`, then `Captures::name` for each name).
    /// The contract claims that the rows are `regex_named_captures` of the
    /// pattern, the haystack and the names.
    #[verifier::external_body]
    pub(crate) fn named_captures(&self, haystack: &str, names: &Vec<String>) -> (rows: Vec<
        Vec<Option<String>>,
    >)
        ensures
            rows.deep_view() == regex_named_captures(self@, haystack@, names.deep_view()),
    {
        let mut rows = Vec::new();
        for caps in self.regex.captures_iter(haystack) {
            let mut row = Vec::new();
            for name in names.iter() {
                row.push(match caps.name(name) {
                    Some(m) => Some(m.as_str().to_string()),
                    None => None,
                });
            }
            rows.push(row);
        }
        rows
    }
}

} // verus!
