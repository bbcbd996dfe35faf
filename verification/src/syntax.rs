//! The composed desugaring: groups are flattened first, so that glob
//! expansion sees the full universe of flat segment names.

use vstd::prelude::*;

use crate::glob_pattern::glob_desugar_spec;
use crate::groups::desugar_groups_spec;

verus! {

/// The canonical form of a document: groups flattened, then glob
/// dependencies expanded against the flat segment names.
pub open spec fn desugar_spec(t: Seq<char>) -> Seq<char> {
    glob_desugar_spec(desugar_groups_spec(t, Seq::empty()))
}

/// Desugars a document into its flat canonical form.
pub fn desugar(content: &str) -> (r: String)
    ensures
        r@ == desugar_spec(content@),
{
    let grouped = crate::groups::desugar(content);
    crate::glob_pattern::desugar(grouped.as_str())
}

} // verus!
