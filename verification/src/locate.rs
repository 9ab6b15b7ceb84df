//! Finding the app's main style sheet: `index.html` links it as
//! `/assets/main-<hash>.css`.
use vstd::prelude::*;
use crate::pattern::{compile, regex_accepts, regex_captures_group1, regex_group1, PatternError};

verus! {

/// The link as the app writes it, in double quotes.
pub const MAIN_CSS_PATTERN: &'static str = r#"href="/assets/(main-[^"]+\.css)""#;

/// The link in single or double quotes, tried when the first finds nothing.
pub const MAIN_CSS_PATTERN_LOOSE: &'static str = r#"href=["']/assets/(main-[^"']+\.css)["']"#;

/// Why the main style sheet could not be named.
#[derive(Debug, Clone, Copy, PartialEq, Eq)]
pub enum LocateError {
    /// A search pattern did not compile.
    InvalidPattern,
    /// `index.html` links no `/assets/main-*.css`.
    NoMainCss,
}

/// The file name of the main style sheet linked from `index.html`: the first
/// pattern's capture, else the looser pattern's.
pub open spec fn main_css_name_spec(html: Seq<char>) -> Option<Seq<char>> {
    match regex_group1(MAIN_CSS_PATTERN@, html) {
        Some(n) => Some(n),
        None => regex_group1(MAIN_CSS_PATTERN_LOOSE@, html),
    }
}

/// The file name (`main-*.css`) of the style sheet that `index.html` links.
/// When the `regex` crate accepts both patterns, the name is found exactly
/// when either pattern finds one, and `NoMainCss` comes otherwise;
/// `InvalidPattern` comes only when the crate refuses a pattern.
pub fn main_css_name(index_html: &str) -> (r: Result<String, LocateError>)
    ensures
        r matches Ok(n) ==> main_css_name_spec(index_html@) == Some(n@),
        r matches Err(e) && e == LocateError::NoMainCss ==> main_css_name_spec(index_html@) is None,
        r matches Err(e) && e == LocateError::InvalidPattern ==> !regex_accepts(MAIN_CSS_PATTERN@)
            || !regex_accepts(MAIN_CSS_PATTERN_LOOSE@),
        regex_accepts(MAIN_CSS_PATTERN@) && regex_accepts(MAIN_CSS_PATTERN_LOOSE@) ==> (r is Ok
            <==> main_css_name_spec(index_html@) is Some),
{
    let p1 = match compile(MAIN_CSS_PATTERN) {
        Ok(p) => p,
        Err(_) => {
            return Err(LocateError::InvalidPattern);
        },
    };
    match regex_captures_group1(&p1, index_html) {
        Some(n) => Ok(n),
        None => {
            let p2 = match compile(MAIN_CSS_PATTERN_LOOSE) {
                Ok(p) => p,
                Err(_) => {
                    return Err(LocateError::InvalidPattern);
                },
            };
            match regex_captures_group1(&p2, index_html) {
                Some(n) => Ok(n),
                None => Err(LocateError::NoMainCss),
            }
        },
    }
}

} // verus!
