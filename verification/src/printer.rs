//! The output modes of the command line: print the resolved script, run it,
//! list the reachable targets, or show the desugared document.

use vstd::prelude::*;

verus! {

/// How a resolved document is delivered. Everything but the choice itself
/// (writing, spawning, completing) lives with the command-line layer.
#[derive(Clone, Debug, PartialEq, Eq, Structural)]
pub enum Printer {
    Stdout,
    Executor,
    Targets,
    DesugarDebug,
}

} // verus!
