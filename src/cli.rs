use vstd::prelude::*;

verus! {

/// The options of a run: where the documents are, whether to print extended information, and
/// an optional heading query.
#[derive(Clone, Debug)]
pub struct Args {
    /// File or directory paths, or glob patterns.
    pub paths: Vec<String>,
    /// Print extended information.
    pub verbose: bool,
    /// Keep only the sections whose heading matches this query.
    pub filter: Option<String>,
}

} // verus!
