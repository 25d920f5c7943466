use vstd::prelude::*;

verus! {

/// The command-line inputs: the directory that holds the compilation database,
/// and the entry point (a function name, or a path to locate it by).
#[derive(Debug, Clone, PartialEq, Eq)]
pub struct Args {
    pub project_path: String,
    pub entry_point: String,
}

} // verus!
