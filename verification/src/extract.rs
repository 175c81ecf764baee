//! Field extraction: compiling the user-supplied pattern and pulling the
//! first capture group out of each input line.
//!
//! The regular-expression engine is `regex`, used through trusted wrappers.
//! A pattern must compile and must contain at least one explicit capture
//! group; both conditions are checked at construction, before any line is
//! read. Compilation, the group count and the extraction result are all
//! functions of the pattern text (and the line) alone, and are named so
//! that the contracts here pin every outcome.

use regex::Regex;
use vstd::prelude::*;

verus! {

#[verifier::external_type_specification]
#[verifier::external_body]
pub struct ExRegex(Regex);

#[verifier::external_type_specification]
#[verifier::external_body]
pub struct ExRegexError(regex::Error);

/// Whether `regex::Regex::new` accepts the pattern; compilation of a given
/// pattern either always succeeds or always fails.
pub uninterp spec fn pattern_compiles(pattern: Seq<char>) -> bool;

/// The capture-group count of a compiling pattern, counting the implicit
/// group for the whole match (`regex::Regex::captures_len`): a function of
/// the pattern text alone.
pub uninterp spec fn groups_of(pattern: Seq<char>) -> nat;

/// The text of the pattern's first capture group in the line, where the
/// line matches and that group participates in the match
/// (`regex::Regex::captures` followed by `regex::Captures::get`): a
/// function of the pattern text and the line alone.
pub uninterp spec fn capture_of(pattern: Seq<char>, line: Seq<char>) -> Option<Seq<char>>;

/// Relies on `regex::Regex::new` and `regex::Regex::captures_len`:
/// compilation succeeds or fails on the pattern text alone, and the group
/// count of the compiled regex — counting the implicit whole-match group,
/// so at least 1 — is a function of the pattern text.
#[verifier::external_body]
fn compile_pattern(pattern: &str) -> (r: Result<(Regex, usize), regex::Error>)
    ensures
        r is Ok <==> pattern_compiles(pattern@),
        r matches Ok(p) ==> p.1 == groups_of(pattern@) && p.1 >= 1,
{
    match Regex::new(pattern) {
        Ok(re) => {
            let groups = re.captures_len();
            Ok((re, groups))
        },
        Err(e) => Err(e),
    }
}

/// A configuration error, detected before any input is read.
#[derive(Clone, Copy, Debug, PartialEq, Eq)]
pub enum ConfigError {
    /// The pattern is not a valid regular expression.
    InvalidPattern,
    /// The pattern compiled, but holds no capture group beyond the implicit
    /// group for the whole match.
    NoCaptureGroup,
}

/// Extracts the field the ranking is keyed on: the text of the pattern's
/// first capture group. The constructor is the type's only builder, so the
/// regex a value holds is always the one compiled from `pattern_text`.
pub struct Extractor {
    re: Regex,
    pattern: Ghost<Seq<char>>,
}

impl Extractor {
    /// The pattern text this extractor was built from.
    pub closed spec fn pattern_text(self) -> Seq<char> {
        self.pattern@
    }

    /// Compiles the pattern and checks that it holds at least one explicit
    /// capture group. A pattern that fails either check is rejected here,
    /// with the error of the check it failed, before any line is read.
    pub fn new(pattern: &str) -> (r: Result<Extractor, ConfigError>)
        ensures
            r is Ok <==> (pattern_compiles(pattern@) && groups_of(pattern@) >= 2),
            r matches Ok(ex) ==> ex.pattern_text() == pattern@,
            r matches Err(ConfigError::InvalidPattern) <==> !pattern_compiles(pattern@),
            r matches Err(ConfigError::NoCaptureGroup) <==> (pattern_compiles(pattern@)
                && groups_of(pattern@) < 2),
    {
        match compile_pattern(pattern) {
            Ok((re, groups)) => {
                if groups < 2 {
                    Err(ConfigError::NoCaptureGroup)
                } else {
                    Ok(Extractor { re, pattern: Ghost(pattern@) })
                }
            },
            Err(_) => Err(ConfigError::InvalidPattern),
        }
    }

    /// Relies on `regex::Regex::captures` and `regex::Captures::get`: the
    /// result is a function of the pattern the regex was compiled from and
    /// of the line; `new` is the type's only builder and ties the ghost
    /// pattern to the compiled regex. A captured text is a span of the line.
    #[verifier::external_body]
    fn capture_group_one(&self, line: &str) -> (r: Option<String>)
        ensures
            r is Some <==> capture_of(self.pattern_text(), line@) is Some,
            r matches Some(s) ==> (capture_of(self.pattern_text(), line@) matches Some(t) && s@
                == t),
            r matches Some(s) ==> exists|i: int, j: int|
                0 <= i <= j <= line@.len() && s@ == line@.subrange(i, j),
    {
        self.re.captures(line).and_then(|c| c.get(1)).map(|m| m.as_str().to_owned())
    }

    /// Extracts the first capture group from the line: exactly the text
    /// `capture_of` names, and nothing when the line does not match or the
    /// group did not participate in the match. The extracted text is a span
    /// of the line.
    pub fn extract(&self, line: &str) -> (r: Option<String>)
        ensures
            r is Some <==> capture_of(self.pattern_text(), line@) is Some,
            r matches Some(s) ==> (capture_of(self.pattern_text(), line@) matches Some(t) && s@
                == t),
            r matches Some(s) ==> exists|i: int, j: int|
                0 <= i <= j <= line@.len() && s@ == line@.subrange(i, j),
    {
        self.capture_group_one(line)
    }
}

} // verus!
