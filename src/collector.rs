pub mod filter;
pub mod heading;
pub mod stats;

use vstd::prelude::*;
use crate::document::{
    apply_document, filter_by_query, rollup, room_for, well_formed, Document,
    NodeView,
};
use stats::Stats;

verus! {

/// Word and paragraph statistics of a set of documents, organised by their headings.
#[derive(Clone, Debug)]
pub struct DocumentStats {
    document: Document,
}

impl View for DocumentStats {
    type V = Seq<NodeView>;

    closed spec fn view(&self) -> Seq<NodeView> {
        self.document@
    }
}

impl DocumentStats {
    /// The well-formedness of the tree.
    pub open spec fn wf(&self) -> bool {
        well_formed(self@)
    }

    /// Statistics of no document.
    pub fn new() -> (r: DocumentStats)
        ensures
            r@ == Seq::<NodeView>::empty(),
            r.wf(),
    {
        DocumentStats { document: Document::new() }
    }

    /// Adds the document `filename` with the raw text `text` to the tree: its markup is
    /// removed, its headings open sections, its content lines are paragraphs, and text before
    /// its first heading (all of it, when it has none) goes to a section named `filename`.
    pub fn apply_str(&mut self, filename: &str, text: &str)
        requires
            old(self).wf(),
            room_for(old(self)@, text@),
        ensures
            final(self).wf(),
            final(self)@ == apply_document(old(self)@, filename@, text@),
    {
        self.document.apply_text(filename, text);
    }

    /// Whether `text` can be applied without overflowing a counter.
    pub fn has_room_for(&self, text: &str) -> (r: bool)
        requires
            self.wf(),
        ensures
            r == room_for(self@, text@),
    {
        self.document.has_room_for(text)
    }

    /// Keeps the sections whose heading matches `filter` (a case-insensitive regular
    /// expression, or a substring when it is not one) with all their descendants; their
    /// ancestors stay as structural sections without statistics; the rest goes.
    pub fn filter_by_heading(&mut self, filter: &str)
        requires
            old(self).wf(),
        ensures
            final(self).wf(),
            final(self)@ == filter_by_query(old(self)@, filter@),
    {
        self.document = self.document.filtered(filter);
    }

    /// The statistics filtered as `filter_by_heading` does, leaving these unchanged.
    pub fn filtered_view(&self, filter: &str) -> (r: DocumentStats)
        requires
            self.wf(),
        ensures
            r.wf(),
            r@ == filter_by_query(self@, filter@),
    {
        DocumentStats { document: self.document.filtered(filter) }
    }

    /// The roll-up of every section: total words and paragraphs, and the longest paragraph.
    pub fn overall_stats(&self) -> (r: Stats)
        requires
            self.wf(),
        ensures
            r == rollup(self@),
    {
        self.document.overall_stats()
    }

    /// The sections in document order, each with its level, heading and own statistics.
    pub fn sections(&self) -> (r: &[crate::document::DocumentStats])
        ensures
            r@.map_values(|d: crate::document::DocumentStats| d@) == self@,
    {
        self.document.iter()
    }
}

} // verus!
