//! Trusted view of the `glob` crate's pattern type. The resolver and the
//! glob desugarer use it to expand dependency tokens and targets against the
//! declared segment names.

use vstd::prelude::*;

verus! {

#[verifier::external_type_specification]
#[verifier::external_body]
pub struct ExPattern(glob::Pattern);

#[verifier::external_type_specification]
#[verifier::external_body]
pub struct ExPatternError(glob::PatternError);

/// Whether the text `p` compiles as a glob pattern.
pub uninterp spec fn glob_compiles(p: Seq<char>) -> bool;

/// Whether the glob pattern written as `p` matches the string `s`.
pub uninterp spec fn glob_matches(p: Seq<char>, s: Seq<char>) -> bool;

/// The pattern text a compiled `glob::Pattern` was built from.
pub uninterp spec fn pattern_text(p: glob::Pattern) -> Seq<char>;

/// Relies on glob::Pattern::new: whether a pattern compiles depends on the
/// pattern text alone, and the compiled form is derived from that text,
/// which the pattern also stores.
pub assume_specification[ glob::Pattern::new ](pattern: &str) -> (r: Result<
    glob::Pattern,
    glob::PatternError,
>)
    ensures
        r is Ok <==> glob_compiles(pattern@),
        r matches Ok(p) ==> pattern_text(p) == pattern@,
;

/// Relies on glob::Pattern::matches: the outcome is a function of the
/// compiled tokens, which derive from the pattern text, and of the
/// candidate string.
pub assume_specification[ glob::Pattern::matches ](p: &glob::Pattern, s: &str) -> (r: bool)
    ensures
        r == glob_matches(pattern_text(*p), s@),
;

} // verus!
