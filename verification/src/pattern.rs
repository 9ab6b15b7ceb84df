//! Regular expressions, through the `regex` crate: compiling a pattern and
//! reading the first capture group of its first match.
use vstd::prelude::*;

verus! {

#[verifier::external_type_specification]
#[verifier::external_body]
pub struct ExRegex(regex::Regex);

#[verifier::external_type_specification]
#[verifier::external_body]
pub struct ExRegexError(regex::Error);

/// What the first capture group matches in the leftmost-first match of the
/// regular expression `pattern` in `text`; `None` when the expression does not
/// match or the group takes no part in the match. A function of its arguments
/// only, computed by the `regex` crate.
pub uninterp spec fn regex_group1(pattern: Seq<char>, text: Seq<char>) -> Option<Seq<char>>;

/// Whether the `regex` crate accepts `pattern` (its syntax is valid and the
/// compiled program stays within the default size limit). A function of the
/// pattern only.
pub uninterp spec fn regex_accepts(pattern: Seq<char>) -> bool;

/// A compiled regular expression together with the source it was compiled from.
/// Only [`compile`] makes one, so the two always belong together.
pub struct Pattern {
    re: regex::Regex,
    source: String,
}

impl Pattern {
    /// The source the expression was compiled from.
    pub closed spec fn source(&self) -> Seq<char> {
        self.source@
    }
}

/// Why a pattern could not be used.
#[derive(Debug, Clone, Copy, PartialEq, Eq)]
pub enum PatternError {
    /// The `regex` crate refused to compile the pattern.
    Invalid,
}

/// `regex::Regex::new`: compiles `pattern`. What is claimed: it succeeds exactly
/// when the crate accepts the pattern (`regex_accepts`, a function of the
/// pattern alone), and a compiled pattern keeps the source it came from. Which
/// patterns are accepted is not stated.
#[verifier::external_body]
pub(crate) fn regex_new(pattern: &str) -> (r: Result<Pattern, regex::Error>)
    ensures
        r is Ok <==> regex_accepts(pattern@),
        r matches Ok(p) ==> p.source() == pattern@,
{
    match regex::Regex::new(pattern) {
        Ok(re) => Ok(Pattern { re, source: pattern.to_string() }),
        Err(e) => Err(e),
    }
}

/// `regex::Regex::captures` followed by `Captures::get(1)`: the text of the
/// first capture group of the first match. What is claimed: the result is
/// `regex_group1` of the pattern's source and the text.
#[verifier::external_body]
pub(crate) fn regex_captures_group1(p: &Pattern, text: &str) -> (r: Option<String>)
    ensures
        match r {
            Some(g) => regex_group1(p.source(), text@) == Some(g@),
            None => regex_group1(p.source(), text@) is None,
        },
{
    match p.re.captures(text) {
        Some(c) => match c.get(1) {
            Some(m) => Some(m.as_str().to_string()),
            None => None,
        },
        None => None,
    }
}

/// Compiles a pattern; an error exactly when the `regex` crate refuses it.
pub(crate) fn compile(pattern: &str) -> (r: Result<Pattern, PatternError>)
    ensures
        r is Ok <==> regex_accepts(pattern@),
        r matches Ok(p) ==> p.source() == pattern@,
        r matches Err(e) ==> e == PatternError::Invalid,
{
    match regex_new(pattern) {
        Ok(p) => Ok(p),
        Err(_) => Err(PatternError::Invalid),
    }
}

} // verus!
