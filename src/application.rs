use vstd::prelude::*;
use crate::cli::Args;
use crate::collector::DocumentStats;
use crate::document::NodeView;

verus! {

/// A run of the statistics over the documents that its options name.
pub struct Application {
    pub options: Args,
    pub document: DocumentStats,
}

impl Application {
    /// A run with `options` and no document applied yet.
    pub fn new(options: Args) -> (r: Application)
        ensures
            r.options == options,
            r.document@ == Seq::<NodeView>::empty(),
            r.document.wf(),
    {
        Application { document: DocumentStats::new(), options }
    }
}

} // verus!
