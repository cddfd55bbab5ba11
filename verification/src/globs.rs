//! Shell-glob pattern matching, done by the `globset` crate behind trusted
//! wrappers.
//!
//! Glob semantics (which characters are special, what a class matches) take
//! pages to state and depend only on the pattern and the candidate name, so
//! the two results are named by uninterpreted spec functions rather than
//! written out. Both wrappers build the pattern with the same explicit
//! options (`backslash_escape` on, `literal_separator` off), so the named
//! semantics do not shift with the target platform's defaults.

use vstd::prelude::*;

verus! {

/// The longest pattern the matcher accepts. Compiling a parsed glob runs
/// under the matcher's fixed 10 MB program-size limit and aborts beyond it;
/// patterns this short compile far below the limit, so the matching wrapper
/// cannot hit that abort.
pub const MAX_GLOB_LEN: usize = 1000;

/// Whether the pattern parser of `globset` accepts `pat`.
pub uninterp spec fn glob_valid(pat: Seq<char>) -> bool;

/// Whether glob pattern `pat` matches the name `s`; the result depends on
/// the two character sequences alone.
pub uninterp spec fn glob_matches(pat: Seq<char>, s: Seq<char>) -> bool;

/// Relies on `globset::GlobBuilder::build` (as `Glob::new` does, with the
/// escape and separator options pinned): parses the pattern and returns
/// `Err` exactly on malformed pattern syntax.
#[verifier::external_body]
pub(crate) fn glob_syntax_ok(pattern: &str) -> (r: bool)
    ensures
        r == glob_valid(pattern@),
{
    globset::GlobBuilder::new(pattern)
        .backslash_escape(true)
        .literal_separator(false)
        .build()
        .is_ok()
}

/// Relies on `globset::GlobBuilder::build`, `globset::Glob::compile_matcher`
/// and `globset::GlobMatcher::is_match`: whether the pattern matches the
/// name, a function of the pattern and the name alone. The length bound
/// keeps the compiled matcher far below its fixed size limit, whose
/// overrun would abort.
#[verifier::external_body]
pub(crate) fn glob_match_name(pattern: &str, name: &str) -> (r: bool)
    requires
        glob_valid(pattern@),
        pattern@.len() <= MAX_GLOB_LEN,
    ensures
        r == glob_matches(pattern@, name@),
{
    globset::GlobBuilder::new(pattern)
        .backslash_escape(true)
        .literal_separator(false)
        .build()
        .unwrap()
        .compile_matcher()
        .is_match(name)
}

} // verus!
