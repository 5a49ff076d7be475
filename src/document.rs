use vstd::prelude::*;
use crate::chars::{chars_of, is_whitespace, is_ws, slice_chars};
use crate::collector::heading::{heading_level, lemma_hashes_end, heading_text, is_heading_line, Heading};
use crate::collector::filter::{heading_matches, HeadingFilter};
use crate::collector::stats::{can_push, combine, pushed, zero_stats, Stats};
use crate::markup::{find_char, find_char_exec, lemma_find_char, strip_chars, strip_markup};
use crate::words::{count_words, count_words_in, lemma_words_at_most_chars};

verus! {

/// A node of a document tree, as contracts see it.
pub struct NodeView {
    pub level: nat,
    pub heading: Option<Seq<char>>,
    pub stats: Stats,
}

/// One node of a document tree: its level, its heading (none for a placeholder), and
/// the statistics of the paragraphs that stand directly under it.
#[derive(Clone, Debug)]
pub struct DocumentStats {
    level: u32,
    heading: Option<String>,
    paragraphs: Stats,
}

/// The view of an optional string.
pub open spec fn opt_view(h: Option<String>) -> Option<Seq<char>> {
    match h {
        Some(s) => Some(s@),
        None => None,
    }
}

impl View for DocumentStats {
    type V = NodeView;

    closed spec fn view(&self) -> NodeView {
        NodeView { level: self.level as nat, heading: opt_view(self.heading), stats: self.paragraphs }
    }
}

impl DocumentStats {
    /// The heading of this node; none for a placeholder.
    pub fn heading(&self) -> (r: Option<&str>)
        ensures
            r matches Some(h) ==> self@.heading == Some(h@),
            r is None ==> self@.heading is None,
    {
        match &self.heading {
            Some(h) => Some(h.as_str()),
            None => None,
        }
    }

    /// The level of this node: 1 for `#`, 2 for `##`, and so on.
    pub fn level(&self) -> (r: u32)
        ensures
            r == self@.level,
    {
        self.level
    }

    /// The statistics of the paragraphs directly under this node.
    pub fn paragraphs(&self) -> (r: Stats)
        ensures
            r == self@.stats,
    {
        self.paragraphs
    }
}

/// The level of the last node, or 0 (the root's) when there is none.
pub open spec fn last_level(nodes: Seq<NodeView>) -> nat {
    if nodes.len() == 0 {
        0
    } else {
        nodes.last().level
    }
}

/// Nodes in document order form a tree: each level is at least 1 and at most one more than the
/// level before it (the root counts as level 0), so that a node's parent is the nearest node
/// before it with a smaller level, and its depth is its level.
pub open spec fn well_shaped(nodes: Seq<NodeView>) -> bool {
    forall|k: int| 0 <= k < nodes.len() ==> #[trigger] level_fits(nodes, k)
}

/// Whether the level of node `k` is at least 1 and at most one more than the level before it.
pub open spec fn level_fits(nodes: Seq<NodeView>, k: int) -> bool {
    &&& 1 <= nodes[k].level
    &&& k == 0 ==> nodes[k].level <= 1
    &&& k > 0 ==> nodes[k].level <= nodes[k - 1].level + 1
}

/// The sum of the word counts of the nodes.
pub open spec fn sum_words(nodes: Seq<NodeView>) -> int
    decreases nodes.len(),
{
    if nodes.len() == 0 {
        0
    } else {
        sum_words(nodes.drop_last()) + nodes.last().stats.word_count
    }
}

/// The sum of the paragraph counts of the nodes.
pub open spec fn sum_paragraphs(nodes: Seq<NodeView>) -> int
    decreases nodes.len(),
{
    if nodes.len() == 0 {
        0
    } else {
        sum_paragraphs(nodes.drop_last()) + nodes.last().stats.paragraph_count
    }
}

/// The combination of the statistics of all the nodes.
pub open spec fn rollup(nodes: Seq<NodeView>) -> Stats
    decreases nodes.len(),
{
    if nodes.len() == 0 {
        zero_stats()
    } else {
        combine(rollup(nodes.drop_last()), nodes.last().stats)
    }
}

/// A well-shaped tree whose totals fit in the counters.
pub open spec fn well_formed(nodes: Seq<NodeView>) -> bool {
    &&& well_shaped(nodes)
    &&& sum_words(nodes) <= u32::MAX
    &&& sum_paragraphs(nodes) <= u32::MAX
}

/// A node with no heading and no paragraph, which keeps the depth of a deeper node equal to its
/// level.
pub open spec fn placeholder(level: nat) -> NodeView {
    NodeView { level, heading: None, stats: zero_stats() }
}

/// The placeholders at levels `from`, `from + 1`, ..., `to - 1`.
pub open spec fn placeholders(from: nat, to: nat) -> Seq<NodeView> {
    Seq::new((if to > from { to - from } else { 0 }) as nat, |k: int| placeholder((from + k) as nat))
}

/// The nodes after a heading of `level` with `text` opens a new section in a document whose
/// current section is at level `from` (0 before its first heading): placeholders fill the levels
/// between the two, so that a document's sections start from the root.
pub open spec fn open_section(nodes: Seq<NodeView>, from: nat, level: nat, text: Seq<char>) -> Seq<
    NodeView,
> {
    nodes + placeholders(from + 1, level) + seq![
        NodeView { level, heading: Some(text), stats: zero_stats() },
    ]
}

pub proof fn lemma_sums_push(nodes: Seq<NodeView>, x: NodeView)
    ensures
        sum_words(nodes.push(x)) == sum_words(nodes) + x.stats.word_count,
        sum_paragraphs(nodes.push(x)) == sum_paragraphs(nodes) + x.stats.paragraph_count,
        rollup(nodes.push(x)) == combine(rollup(nodes), x.stats),
{
    assert(nodes.push(x).drop_last() =~= nodes);
}

pub proof fn lemma_well_shaped_push(nodes: Seq<NodeView>, x: NodeView)
    requires
        well_shaped(nodes),
        1 <= x.level <= last_level(nodes) + 1,
    ensures
        well_shaped(nodes.push(x)),
        last_level(nodes.push(x)) == x.level,
{
    let p = nodes.push(x);
    assert forall|k: int| 0 <= k < p.len() implies #[trigger] level_fits(p, k) by {
        if k < nodes.len() {
            assert(level_fits(nodes, k));
            assert(p[k] == nodes[k]);
            if k > 0 {
                assert(p[k - 1] == nodes[k - 1]);
            }
        } else if k > 0 {
            assert(p[k - 1] == nodes.last());
        }
    }
}

pub proof fn lemma_sums_nonneg(nodes: Seq<NodeView>)
    ensures
        sum_words(nodes) >= 0,
        sum_paragraphs(nodes) >= 0,
    decreases nodes.len(),
{
    if nodes.len() > 0 {
        lemma_sums_nonneg(nodes.drop_last());
    }
}

pub proof fn lemma_sums_update_last(nodes: Seq<NodeView>, x: NodeView)
    requires
        nodes.len() > 0,
    ensures
        sum_words(nodes.update(nodes.len() - 1, x)) == sum_words(nodes) - nodes.last().stats.word_count
            + x.stats.word_count,
        sum_paragraphs(nodes.update(nodes.len() - 1, x)) == sum_paragraphs(nodes)
            - nodes.last().stats.paragraph_count + x.stats.paragraph_count,
{
    assert(nodes.update(nodes.len() - 1, x).drop_last() =~= nodes.drop_last());
}

/// Within bounded sums, the roll-up holds the sums exactly.
pub proof fn lemma_rollup_sums(nodes: Seq<NodeView>)
    requires
        sum_words(nodes) <= u32::MAX,
        sum_paragraphs(nodes) <= u32::MAX,
    ensures
        rollup(nodes).word_count == sum_words(nodes),
        rollup(nodes).paragraph_count == sum_paragraphs(nodes),
    decreases nodes.len(),
{
    if nodes.len() > 0 {
        lemma_sums_nonneg(nodes.drop_last());
        lemma_rollup_sums(nodes.drop_last());
    }
}


/// Whether a line takes part in the statistics: a line that holds only white space, or that
/// starts with a footnote marker `[^`, is skipped.
pub open spec fn is_content_line(line: Seq<char>) -> bool {
    &&& exists|k: int| 0 <= k < line.len() && !is_ws(#[trigger] line[k])
    &&& !(line.len() >= 2 && line[0] == '[' && line[1] == '^')
}

/// The lines of `s[i..]`, split at each line break; a final line break ends the last line.
pub open spec fn lines_from(s: Seq<char>, i: int) -> Seq<Seq<char>>
    decreases s.len() - i,
{
    if i < 0 || i >= s.len() {
        Seq::empty()
    } else {
        let e = find_char(s, i, '\n');
        proof {
            lemma_find_char(s, i, '\n');
        }
        seq![s.subrange(i, e)] + (if e < s.len() {
            lines_from(s, e + 1)
        } else {
            Seq::empty()
        })
    }
}

/// The state of the tree builder between two lines of one document: the nodes so far; until
/// the document's first heading, the statistics of the paragraphs that precede it; and the level
/// of the document's current section, 0 (the root) before its first heading.
pub struct ApplyState {
    pub nodes: Seq<NodeView>,
    pub pending: Option<Stats>,
    pub level: nat,
}

/// The words held back before a document's first heading.
pub open spec fn pending_words(p: Option<Stats>) -> int {
    match p {
        Some(b) => b.word_count as int,
        None => 0,
    }
}

/// The paragraphs held back before a document's first heading.
pub open spec fn pending_paragraphs(p: Option<Stats>) -> int {
    match p {
        Some(b) => b.paragraph_count as int,
        None => 0,
    }
}

/// The section named after its document, which holds the text of a document before its first
/// heading, or all of it when it has none.
pub open spec fn source_node(name: Seq<char>, stats: Stats) -> NodeView {
    NodeView { level: 1, heading: Some(name), stats }
}

/// The nodes after a paragraph of `w` words joins the last node.
pub open spec fn with_paragraph(nodes: Seq<NodeView>, w: u32) -> Seq<NodeView> {
    nodes.update(
        nodes.len() - 1,
        NodeView { level: nodes.last().level, heading: nodes.last().heading, stats: pushed(nodes.last().stats, w) },
    )
}

/// One line of a document applied to the builder's state. A heading opens a section (after the
/// text that preceded the document's first heading, if it has a paragraph, has become a section
/// named after the document); a content line with words is a paragraph of the current section.
pub open spec fn step(st: ApplyState, name: Seq<char>, line: Seq<char>) -> ApplyState {
    if !is_content_line(line) {
        st
    } else if is_heading_line(line) {
        let nodes = match st.pending {
            Some(b) => if b.paragraph_count > 0 {
                st.nodes.push(source_node(name, b))
            } else {
                st.nodes
            },
            None => st.nodes,
        };
        ApplyState {
            nodes: open_section(nodes, st.level, heading_level(line), heading_text(line)),
            pending: None,
            level: heading_level(line),
        }
    } else {
        let w = count_words(line);
        if w == 0 {
            st
        } else {
            match st.pending {
                Some(b) => ApplyState {
                    nodes: st.nodes,
                    pending: Some(pushed(b, w as u32)),
                    level: st.level,
                },
                None => ApplyState {
                    nodes: with_paragraph(st.nodes, w as u32),
                    pending: None,
                    level: st.level,
                },
            }
        }
    }
}

/// The lines of a document applied in order.
pub open spec fn run_lines(st: ApplyState, name: Seq<char>, lines: Seq<Seq<char>>) -> ApplyState
    decreases lines.len(),
{
    if lines.len() == 0 {
        st
    } else {
        step(run_lines(st, name, lines.drop_last()), name, lines.last())
    }
}

/// The end of a document: text that no heading preceded becomes a section named after the
/// document.
pub open spec fn finish(st: ApplyState, name: Seq<char>) -> Seq<NodeView> {
    match st.pending {
        Some(b) => st.nodes.push(source_node(name, b)),
        None => st.nodes,
    }
}

/// The tree after the document `name` with the raw text `text` is applied to it: markup is
/// removed, then the lines are applied in order.
pub open spec fn apply_document(nodes: Seq<NodeView>, name: Seq<char>, text: Seq<char>) -> Seq<
    NodeView,
> {
    finish(
        run_lines(
            ApplyState { nodes, pending: Some(zero_stats()), level: 0 },
            name,
            lines_from(strip_markup(text), 0),
        ),
        name,
    )
}

/// Whether the line is a content line.
pub fn is_content(line: &Vec<char>) -> (r: bool)
    ensures
        r == is_content_line(line@),
{
    let n = line.len();
    if n >= 2 && line[0] == '[' && line[1] == '^' {
        return false;
    }
    let mut k: usize = 0;
    while k < n
        invariant
            k <= n,
            n == line@.len(),
            !(n >= 2 && line@[0] == '[' && line@[1] == '^'),
            forall|j: int| 0 <= j < k ==> is_ws(#[trigger] line@[j]),
        decreases n - k,
    {
        if !is_whitespace(line[k]) {
            assert(!is_ws(line@[k as int]));
            return true;
        }
        k = k + 1;
    }
    false
}

/// Whether node `k` lies in the subtree of node `j`: it is `j` itself, or it comes after `j`
/// and every node from just after `j` up to `k` is deeper than `j`.
pub open spec fn in_subtree(nodes: Seq<NodeView>, j: int, k: int) -> bool {
    &&& 0 <= j <= k < nodes.len()
    &&& forall|i: int| j < i <= k ==> #[trigger] nodes[i].level > nodes[j].level
}

/// Whether node `k` lies in the subtree of a matching node (the match itself included).
pub open spec fn kept_whole(nodes: Seq<NodeView>, matched: Seq<bool>, k: int) -> bool {
    exists|j: int| #[trigger] in_subtree(nodes, j, k) && matched[j]
}

/// Whether a matching node lies strictly below node `k`.
pub open spec fn on_path(nodes: Seq<NodeView>, matched: Seq<bool>, k: int) -> bool {
    exists|j: int| k < j && #[trigger] in_subtree(nodes, k, j) && matched[j]
}

/// Whether a filter keeps node `k`.
pub open spec fn retained(nodes: Seq<NodeView>, matched: Seq<bool>, k: int) -> bool {
    kept_whole(nodes, matched, k) || on_path(nodes, matched, k)
}

/// Node `k` as a filter shows it: whole inside a matching subtree; as a structural node with
/// no paragraph when it is kept only because a match lies below it.
pub open spec fn shown(nodes: Seq<NodeView>, matched: Seq<bool>, k: int) -> NodeView {
    if kept_whole(nodes, matched, k) {
        nodes[k]
    } else {
        NodeView { level: nodes[k].level, heading: nodes[k].heading, stats: zero_stats() }
    }
}

/// The first `n` nodes after filtering, where `matched[k]` says whether node `k` matches: the
/// matching subtrees whole, their ancestors as structural nodes, and nothing else, in order.
pub open spec fn filter_prefix(nodes: Seq<NodeView>, matched: Seq<bool>, n: int) -> Seq<NodeView>
    decreases n,
{
    if n <= 0 {
        Seq::empty()
    } else if retained(nodes, matched, n - 1) {
        filter_prefix(nodes, matched, n - 1).push(shown(nodes, matched, n - 1))
    } else {
        filter_prefix(nodes, matched, n - 1)
    }
}

/// The nodes after filtering by the match flags `matched`.
pub open spec fn filter_nodes(nodes: Seq<NodeView>, matched: Seq<bool>) -> Seq<NodeView> {
    filter_prefix(nodes, matched, nodes.len() as int)
}

/// The nodes that a filter keeps whole, with their own statistics.
pub open spec fn whole_prefix(nodes: Seq<NodeView>, matched: Seq<bool>, n: int) -> Seq<NodeView>
    decreases n,
{
    if n <= 0 {
        Seq::empty()
    } else if kept_whole(nodes, matched, n - 1) {
        whole_prefix(nodes, matched, n - 1).push(nodes[n - 1])
    } else {
        whole_prefix(nodes, matched, n - 1)
    }
}

pub proof fn lemma_sums_prefix(nodes: Seq<NodeView>, k: int)
    requires
        0 <= k <= nodes.len(),
    ensures
        sum_words(nodes.take(k)) <= sum_words(nodes),
        sum_paragraphs(nodes.take(k)) <= sum_paragraphs(nodes),
    decreases nodes.len(),
{
    if k < nodes.len() {
        lemma_sums_nonneg(nodes.drop_last());
        assert(nodes.drop_last().take(k) =~= nodes.take(k));
        lemma_sums_prefix(nodes.drop_last(), k);
    } else {
        assert(nodes.take(k) =~= nodes);
    }
}

proof fn lemma_filter_sums(nodes: Seq<NodeView>, matched: Seq<bool>, n: int)
    requires
        0 <= n <= nodes.len(),
    ensures
        sum_words(filter_prefix(nodes, matched, n)) <= sum_words(nodes.take(n)),
        sum_paragraphs(filter_prefix(nodes, matched, n)) <= sum_paragraphs(nodes.take(n)),
    decreases n,
{
    if n > 0 {
        lemma_filter_sums(nodes, matched, n - 1);
        assert(nodes.take(n).drop_last() =~= nodes.take(n - 1));
        if retained(nodes, matched, n - 1) {
            lemma_sums_push(filter_prefix(nodes, matched, n - 1), shown(nodes, matched, n - 1));
        }
    }
}

/// Filtering keeps the totals within the counters.
pub proof fn lemma_filter_well_formed(nodes: Seq<NodeView>, matched: Seq<bool>)
    requires
        well_formed(nodes),
    ensures
        well_formed(filter_nodes(nodes, matched)),
{
    lemma_filter_sums(nodes, matched, nodes.len() as int);
    lemma_filter_well_shaped(nodes, matched);
    assert(nodes.take(nodes.len() as int) =~= nodes);
}

/// The match flags of the nodes for a query: a node matches when it has a heading and the
/// heading matches the query.
pub open spec fn match_flags(nodes: Seq<NodeView>, query: Seq<char>) -> Seq<bool> {
    Seq::new(
        nodes.len(),
        |k: int|
            match nodes[k].heading {
                Some(t) => heading_matches(query, t),
                None => false,
            },
    )
}

/// The tree filtered by a heading query.
pub open spec fn filter_by_query(nodes: Seq<NodeView>, query: Seq<char>) -> Seq<NodeView> {
    filter_nodes(nodes, match_flags(nodes, query))
}

/// Whether a text can be applied to the tree without overflowing a counter: every paragraph
/// has a word and every word a character, so the text's length bounds what it adds.
pub open spec fn room_for(nodes: Seq<NodeView>, text: Seq<char>) -> bool {
    &&& sum_words(nodes) + text.len() <= u32::MAX
    &&& sum_paragraphs(nodes) + text.len() <= u32::MAX
}

proof fn lemma_filter_then_rollup_prefix(nodes: Seq<NodeView>, matched: Seq<bool>, n: int)
    requires
        0 <= n <= nodes.len(),
    ensures
        rollup(filter_prefix(nodes, matched, n)) == rollup(whole_prefix(nodes, matched, n)),
    decreases n,
{
    if n > 0 {
        lemma_filter_then_rollup_prefix(nodes, matched, n - 1);
        let f = filter_prefix(nodes, matched, n - 1);
        let w = whole_prefix(nodes, matched, n - 1);
        if kept_whole(nodes, matched, n - 1) {
            lemma_sums_push(f, nodes[n - 1]);
            lemma_sums_push(w, nodes[n - 1]);
        } else if on_path(nodes, matched, n - 1) {
            lemma_sums_push(f, shown(nodes, matched, n - 1));
        }
    }
}

/// Filtering and aggregation commute: the roll-up of a filtered tree is the roll-up of the
/// nodes that lie in a matching subtree, with the statistics they had before filtering; the
/// ancestors that the filter keeps for structure add nothing.
pub proof fn lemma_filter_then_rollup(nodes: Seq<NodeView>, query: Seq<char>)
    ensures
        rollup(filter_by_query(nodes, query)) == rollup(
            whole_prefix(nodes, match_flags(nodes, query), nodes.len() as int),
        ),
{
    lemma_filter_then_rollup_prefix(nodes, match_flags(nodes, query), nodes.len() as int);
}

/// Applying a document is deterministic: applied to two equal trees, the same document gives
/// equal trees, shapes and statistics alike.
pub proof fn lemma_apply_deterministic(
    a: Seq<NodeView>,
    b: Seq<NodeView>,
    name: Seq<char>,
    text: Seq<char>,
)
    requires
        a == b,
    ensures
        apply_document(a, name, text) == apply_document(b, name, text),
{
}

/// The last node before `n` that a filter keeps, or -1 if there is none.
pub open spec fn last_retained(nodes: Seq<NodeView>, matched: Seq<bool>, n: int) -> int
    decreases n,
{
    if n <= 0 {
        -1
    } else if retained(nodes, matched, n - 1) {
        n - 1
    } else {
        last_retained(nodes, matched, n - 1)
    }
}

proof fn lemma_ancestor_run(nodes: Seq<NodeView>, j: int, l: nat)
    requires
        well_shaped(nodes),
        0 <= j < nodes.len(),
        2 <= l <= nodes[j].level,
    ensures
        exists|p: int|
            0 <= p < j && nodes[p].level == l - 1 && forall|i: int|
                p < i <= j ==> #[trigger] nodes[i].level >= l,
    decreases j,
{
    assert(level_fits(nodes, j));
    assert(j > 0);
    assert(level_fits(nodes, j - 1));
    if nodes[j - 1].level == l - 1 {
        assert forall|i: int| j - 1 < i <= j implies #[trigger] nodes[i].level >= l by {}
    } else {
        lemma_ancestor_run(nodes, j - 1, l);
        let p = choose|p: int|
            0 <= p < j - 1 && nodes[p].level == l - 1 && forall|i: int|
                p < i <= j - 1 ==> #[trigger] nodes[i].level >= l;
        assert forall|i: int| p < i <= j implies #[trigger] nodes[i].level >= l by {
            if i < j {
            }
        }
    }
}

proof fn lemma_parent_retained(nodes: Seq<NodeView>, matched: Seq<bool>, k: int, p: int)
    requires
        0 <= p < k < nodes.len(),
        nodes[p].level + 1 == nodes[k].level,
        forall|i: int| p < i < k ==> #[trigger] nodes[i].level >= nodes[k].level,
        retained(nodes, matched, k),
    ensures
        retained(nodes, matched, p),
{
    let l = nodes[k].level;
    if on_path(nodes, matched, k) {
        let j = choose|j: int| k < j && #[trigger] in_subtree(nodes, k, j) && matched[j];
        assert forall|i: int| p < i <= j implies #[trigger] nodes[i].level > nodes[p].level by {
            if i < k {
            } else if i > k {
                assert(nodes[i].level > nodes[k].level);
            }
        }
        assert(in_subtree(nodes, p, j));
    } else {
        let j = choose|j: int| #[trigger] in_subtree(nodes, j, k) && matched[j];
        if j == k {
            assert forall|i: int| p < i <= k implies #[trigger] nodes[i].level > nodes[p].level by {}
            assert(in_subtree(nodes, p, k));
        } else {
            assert(nodes[k].level > nodes[j].level);
            if j > p {
                assert(nodes[j].level >= l);
            }
            if j == p {
                assert(in_subtree(nodes, p, p));
            } else {
                assert(nodes[p].level > nodes[j].level);
                assert forall|i: int| j < i <= p implies #[trigger] nodes[i].level > nodes[j].level by {}
                assert(in_subtree(nodes, j, p));
            }
        }
    }
}

proof fn lemma_last_retained(nodes: Seq<NodeView>, matched: Seq<bool>, n: int, q: int)
    requires
        0 <= q < n <= nodes.len(),
        retained(nodes, matched, q),
    ensures
        q <= last_retained(nodes, matched, n) < n,
    decreases n,
{
    if !retained(nodes, matched, n - 1) {
        lemma_last_retained(nodes, matched, n - 1, q);
    }
}

proof fn lemma_filter_prefix_shape(nodes: Seq<NodeView>, matched: Seq<bool>, n: int)
    requires
        well_shaped(nodes),
        0 <= n <= nodes.len(),
    ensures
        well_shaped(filter_prefix(nodes, matched, n)),
        last_level(filter_prefix(nodes, matched, n)) == (if last_retained(nodes, matched, n) >= 0 {
            nodes[last_retained(nodes, matched, n)].level
        } else {
            0
        }),
    decreases n,
{
    if n > 0 {
        lemma_filter_prefix_shape(nodes, matched, n - 1);
        let k = n - 1;
        if retained(nodes, matched, k) {
            let prev = filter_prefix(nodes, matched, k);
            assert(level_fits(nodes, k));
            let l = nodes[k].level;
            if l >= 2 {
                lemma_ancestor_run(nodes, k, l);
                let p = choose|p: int|
                    0 <= p < k && nodes[p].level == l - 1 && forall|i: int|
                        p < i <= k ==> #[trigger] nodes[i].level >= l;
                lemma_parent_retained(nodes, matched, k, p);
                lemma_last_retained(nodes, matched, k, p);
                let q = last_retained(nodes, matched, k);
                if q > p {
                    assert(nodes[q].level >= l);
                }
            }
            lemma_well_shaped_push(prev, shown(nodes, matched, k));
        }
    }
}

/// Filtering keeps the shape of a tree: in the filtered nodes too, each level is at least 1
/// and at most one more than the level before it, since a filter that keeps a node keeps its
/// parent.
pub proof fn lemma_filter_well_shaped(nodes: Seq<NodeView>, matched: Seq<bool>)
    requires
        well_shaped(nodes),
    ensures
        well_shaped(filter_nodes(nodes, matched)),
{
    lemma_filter_prefix_shape(nodes, matched, nodes.len() as int);
}

/// The code of a character with ASCII small letters raised to capitals.
pub open spec fn upper_code(c: char) -> u32 {
    if 'a' <= c && c <= 'z' {
        (c as u32 - 32) as u32
    } else {
        c as u32
    }
}

/// Whether `h`, its ASCII letters raised to capitals, starts with `q`.
pub open spec fn upper_starts_with(h: Seq<char>, q: Seq<char>) -> bool {
    &&& q.len() <= h.len()
    &&& forall|k: int| 0 <= k < q.len() ==> upper_code(#[trigger] h[k]) == q[k] as u32
}

/// Whether a node has a heading that, raised to capitals, starts with `q`.
pub open spec fn heading_starts(node: NodeView, q: Seq<char>) -> bool {
    match node.heading {
        Some(h) => upper_starts_with(h, q),
        None => false,
    }
}

/// The end of the subtree of node `k` within `[.., hi)`, seeking from `j`: the first node from
/// `j` on that is no deeper than `k`, or `hi`.
pub open spec fn child_end(nodes: Seq<NodeView>, k: int, j: int, hi: int) -> int
    decreases hi - j,
{
    if j >= hi || j < 0 || j >= nodes.len() || k < 0 || k >= nodes.len() {
        hi
    } else if nodes[j].level <= nodes[k].level {
        j
    } else {
        child_end(nodes, k, j + 1, hi)
    }
}

/// The first node of `[lo, hi)` at level `lv + 1` whose heading starts with `q`.
pub open spec fn first_heading_match(
    nodes: Seq<NodeView>,
    q: Seq<char>,
    lo: int,
    hi: int,
    lv: nat,
) -> Option<int>
    decreases hi - lo,
{
    if lo >= hi || lo < 0 || lo >= nodes.len() {
        None
    } else if nodes[lo].level == lv + 1 && heading_starts(nodes[lo], q) {
        Some(lo)
    } else {
        first_heading_match(nodes, q, lo + 1, hi, lv)
    }
}

/// The length of `[lo, hi)`, or 0.
pub open spec fn span(lo: int, hi: int) -> nat {
    if lo < hi {
        (hi - lo) as nat
    } else {
        0
    }
}

/// The section whose heading starts with `q`, sought among the nodes `[lo, hi)` below a node of
/// level `lv`: first among its children, then, child after child, within each child's subtree.
pub open spec fn find_heading_in(nodes: Seq<NodeView>, q: Seq<char>, lo: int, hi: int, lv: nat) -> Option<
    int,
>
    decreases 2 * span(lo, hi) + 1,
{
    match first_heading_match(nodes, q, lo, hi, lv) {
        Some(k) => Some(k),
        None => find_in_children(nodes, q, lo, hi, lv),
    }
}

/// The section whose heading starts with `q`, sought within the subtrees of the children (the
/// nodes at level `lv + 1`) that start in `[lo, hi)`, one child after another.
pub open spec fn find_in_children(
    nodes: Seq<NodeView>,
    q: Seq<char>,
    lo: int,
    hi: int,
    lv: nat,
) -> Option<int>
    decreases 2 * span(lo, hi),
{
    if lo >= hi || lo < 0 || lo >= nodes.len() {
        None
    } else if nodes[lo].level == lv + 1 {
        let e = child_end(nodes, lo, lo + 1, hi);
        proof {
            lemma_child_end(nodes, lo, lo + 1, hi);
        }
        match find_heading_in(nodes, q, lo + 1, e, lv + 1) {
            Some(k) => Some(k),
            None => find_in_children(nodes, q, e, hi, lv),
        }
    } else {
        find_in_children(nodes, q, lo + 1, hi, lv)
    }
}

/// The subtree of node `k`, with its levels moved up so that node `k` is at level 1.
pub open spec fn lifted_subtree(nodes: Seq<NodeView>, k: int) -> Seq<NodeView> {
    let e = child_end(nodes, k, k + 1, nodes.len() as int);
    Seq::new(
        span(k, e),
        |i: int|
            NodeView {
                level: (nodes[k + i].level - nodes[k].level + 1) as nat,
                heading: nodes[k + i].heading,
                stats: nodes[k + i].stats,
            },
    )
}

pub proof fn lemma_child_end(nodes: Seq<NodeView>, k: int, j: int, hi: int)
    requires
        j <= hi,
    ensures
        j <= child_end(nodes, k, j, hi) <= hi,
        0 <= k < nodes.len() && 0 <= j && hi <= nodes.len() ==> forall|i: int|
            j <= i < child_end(nodes, k, j, hi) ==> #[trigger] nodes[i].level > nodes[k].level,
    decreases hi - j,
{
    if j < hi && 0 <= j < nodes.len() && 0 <= k < nodes.len() && nodes[j].level > nodes[k].level {
        lemma_child_end(nodes, k, j + 1, hi);
    }
}

pub proof fn lemma_sums_subrange(nodes: Seq<NodeView>, k: int, e: int)
    requires
        0 <= k <= e <= nodes.len(),
    ensures
        sum_words(nodes.subrange(k, e)) <= sum_words(nodes),
        sum_paragraphs(nodes.subrange(k, e)) <= sum_paragraphs(nodes),
    decreases nodes.len(),
{
    if k == e {
        lemma_sums_nonneg(nodes);
        assert(nodes.subrange(k, e).len() == 0);
    } else if e < nodes.len() {
        lemma_sums_nonneg(nodes.drop_last());
        assert(nodes.drop_last().subrange(k, e) =~= nodes.subrange(k, e));
        lemma_sums_subrange(nodes.drop_last(), k, e);
    } else {
        assert(nodes.subrange(k, e).drop_last() =~= nodes.drop_last().subrange(k, e - 1));
        lemma_sums_subrange(nodes.drop_last(), k, e - 1);
    }
}

proof fn lemma_sums_same_stats(a: Seq<NodeView>, b: Seq<NodeView>)
    requires
        a.len() == b.len(),
        forall|i: int| 0 <= i < a.len() ==> #[trigger] a[i].stats == b[i].stats,
    ensures
        sum_words(a) == sum_words(b),
        sum_paragraphs(a) == sum_paragraphs(b),
    decreases a.len(),
{
    if a.len() > 0 {
        assert(a.last().stats == b.last().stats);
        lemma_sums_same_stats(a.drop_last(), b.drop_last());
    }
}

/// The subtree of a node, lifted so that the node is at level 1, is a well-formed tree.
proof fn lemma_lifted_well_formed(nodes: Seq<NodeView>, k: int)
    requires
        well_formed(nodes),
        0 <= k < nodes.len(),
    ensures
        well_formed(lifted_subtree(nodes, k)),
{
    let n = nodes.len() as int;
    let e = child_end(nodes, k, k + 1, n);
    lemma_child_end(nodes, k, k + 1, n);
    let l = lifted_subtree(nodes, k);
    let sub = nodes.subrange(k, e);
    assert forall|i: int| 0 <= i < l.len() implies #[trigger] level_fits(l, i) by {
        assert(level_fits(nodes, k + i));
        if i > 0 {
            assert(nodes[k + i].level > nodes[k].level);
            if i > 1 {
                assert(nodes[k + i - 1].level > nodes[k].level);
            }
        }
    }
    assert forall|i: int| 0 <= i < l.len() implies #[trigger] l[i].stats == sub[i].stats by {}
    lemma_sums_same_stats(l, sub);
    lemma_sums_subrange(nodes, k, e);
}

/// A tree of document sections, kept as its nodes in document (depth-first) order below an
/// implicit root of level 0.
#[derive(Clone, Debug)]
pub struct Document {
    sections: Vec<DocumentStats>,
}

impl View for Document {
    type V = Seq<NodeView>;

    closed spec fn view(&self) -> Seq<NodeView> {
        self.sections@.map_values(|d: DocumentStats| d@)
    }
}

impl Document {
    /// The well-formedness of the tree.
    pub open spec fn wf(&self) -> bool {
        well_formed(self@)
    }

    /// A tree with the root alone.
    pub fn new() -> (r: Document)
        ensures
            r@ == Seq::<NodeView>::empty(),
            r.wf(),
    {
        let r = Document { sections: Vec::new() };
        proof {
            assert(r@ =~= Seq::<NodeView>::empty());
        }
        r
    }

    /// Appends a node.
    fn push_node(&mut self, level: u32, heading: Option<String>, paragraphs: Stats)
        ensures
            final(self)@ == old(self)@.push(
                NodeView { level: level as nat, heading: opt_view(heading), stats: paragraphs },
            ),
    {
        self.sections.push(DocumentStats { level, heading, paragraphs });
        proof {
            assert(self@ =~= old(self)@.push(
                NodeView { level: level as nat, heading: opt_view(heading), stats: paragraphs },
            ));
        }
    }

    /// The combination of the statistics of every node: total words and paragraphs, and the
    /// longest paragraph.
    pub fn overall_stats(&self) -> (r: Stats)
        requires
            self.wf(),
        ensures
            r == rollup(self@),
    {
        let ghost v = self@;
        let n = self.sections.len();
        let mut acc = Stats::new();
        let mut k: usize = 0;
        while k < n
            invariant
                v == self@,
                n == v.len(),
                well_formed(v),
                k <= n,
                acc == rollup(v.take(k as int)),
            decreases n - k,
        {
            let p = self.sections[k].paragraphs;
            proof {
                assert(v[k as int] == self.sections@[k as int]@);
                assert(v.take(k + 1).drop_last() =~= v.take(k as int));
                lemma_sums_prefix(v, k + 1);
                lemma_sums_nonneg(v.take(k as int));
                lemma_rollup_sums(v.take(k as int));
            }
            acc = acc.combine(&p);
            k = k + 1;
        }
        proof {
            assert(v.take(n as int) =~= v);
        }
        acc
    }

    /// Whether node `k` lies in the subtree of a node whose flag is set.
    fn kept_whole_at(&self, matched: &Vec<bool>, k: usize) -> (r: bool)
        requires
            k < self@.len(),
            matched@.len() == self@.len(),
        ensures
            r == kept_whole(self@, matched@, k as int),
    {
        let ghost v = self@;
        let mut j: usize = k;
        let mut low: u32 = self.sections[k].level;
        proof {
            assert(v[k as int] == self.sections@[k as int]@);
        }
        if matched[k] {
            assert(in_subtree(v, k as int, k as int));
            return true;
        }
        assert(v[k as int].level == low);
        assert(!matched@[k as int]);
        while j > 0
            invariant
                v == self@,
                matched@.len() == v.len(),
                j <= k < v.len(),
                forall|i: int| j <= i <= k ==> #[trigger] v[i].level >= low,
                exists|i: int| j <= i <= k && #[trigger] v[i].level == low,
                forall|i: int| j <= i <= k && #[trigger] in_subtree(v, i, k as int) ==> !matched@[i],
            decreases j,
        {
            let lj = self.sections[j - 1].level;
            proof {
                assert(v[j - 1] == self.sections@[j - 1]@);
            }
            if lj < low && matched[j - 1] {
                assert(in_subtree(v, j - 1, k as int));
                return true;
            }
            proof {
                if lj >= low {
                    let w = choose|i: int| j <= i <= k && #[trigger] v[i].level == low;
                    assert(!in_subtree(v, j - 1, k as int)) by {
                        assert(v[w].level <= v[j - 1].level);
                    }
                }
            }
            if lj < low {
                low = lj;
            }
            j = j - 1;
        }
        false
    }

    /// Whether a node whose flag is set lies strictly below node `k`.
    fn on_path_at(&self, matched: &Vec<bool>, k: usize) -> (r: bool)
        requires
            k < self@.len(),
            matched@.len() == self@.len(),
        ensures
            r == on_path(self@, matched@, k as int),
    {
        let ghost v = self@;
        let n = self.sections.len();
        let lk = self.sections[k].level;
        proof {
            assert(v[k as int] == self.sections@[k as int]@);
        }
        let mut j: usize = k + 1;
        while j < n
            invariant
                v == self@,
                n == v.len(),
                matched@.len() == v.len(),
                k < j <= n,
                lk == v[k as int].level,
                forall|i: int| k < i < j ==> #[trigger] v[i].level > lk,
                forall|i: int| k < i < j ==> !#[trigger] matched@[i],
            decreases n - j,
        {
            proof {
                assert(v[j as int] == self.sections@[j as int]@);
            }
            if self.sections[j].level <= lk {
                proof {
                    assert forall|i: int| k < i && #[trigger] in_subtree(v, k as int, i) implies !matched@[i] by {
                        if i >= j {
                            assert(v[j as int].level > v[k as int].level);
                        }
                    }
                }
                return false;
            }
            if matched[j] {
                assert(in_subtree(v, k as int, j as int));
                return true;
            }
            j = j + 1;
        }
        false
    }

    /// The tree filtered by the match flags `matched`, one for each node: the subtree of every
    /// node whose flag is set, whole, plus its ancestors, which keep their heading but no
    /// paragraph; every other node is left out.
    pub fn retain_matches(&self, matched: &Vec<bool>) -> (r: Document)
        requires
            self.wf(),
            matched@.len() == self@.len(),
        ensures
            r.wf(),
            r@ == filter_nodes(self@, matched@),
    {
        let ghost v = self@;
        let n = self.sections.len();
        let mut out = Document::new();
        let mut k: usize = 0;
        while k < n
            invariant
                v == self@,
                n == v.len(),
                matched@.len() == n,
                k <= n,
                out@ == filter_prefix(v, matched@, k as int),
            decreases n - k,
        {
            let whole = self.kept_whole_at(matched, k);
            let path = self.on_path_at(matched, k);
            if whole || path {
                let d = &self.sections[k];
                proof {
                    assert(v[k as int] == d@);
                }
                let heading = match &d.heading {
                    Some(h) => Some(h.clone()),
                    None => None,
                };
                let p = if whole {
                    d.paragraphs
                } else {
                    Stats::new()
                };
                out.push_node(d.level, heading, p);
                proof {
                    assert(out@ == filter_prefix(v, matched@, k as int).push(shown(v, matched@, k as int)));
                }
            }
            k = k + 1;
        }
        proof {
            lemma_filter_well_formed(v, matched@);
        }
        out
    }

    /// The nodes in document order: level, heading (none for a placeholder) and own
    /// statistics of each.
    pub fn iter(&self) -> (r: &[DocumentStats])
        ensures
            r@.map_values(|d: DocumentStats| d@) == self@,
    {
        self.sections.as_slice()
    }

    /// Whether `text` can be applied without overflowing a counter.
    pub fn has_room_for(&self, text: &str) -> (r: bool)
        requires
            self.wf(),
        ensures
            r == room_for(self@, text@),
    {
        let o = self.overall_stats();
        proof {
            lemma_rollup_sums(self@);
        }
        let n = chars_of(text).len();
        n <= (u32::MAX - o.word_count) as usize && n <= (u32::MAX - o.paragraph_count) as usize
    }

    /// The match flags of the nodes for `filter`.
    fn match_flags(&self, filter: &HeadingFilter) -> (r: Vec<bool>)
        ensures
            r@ == match_flags(self@, filter.query()),
    {
        let ghost v = self@;
        let n = self.sections.len();
        let mut r: Vec<bool> = Vec::new();
        let mut k: usize = 0;
        while k < n
            invariant
                v == self@,
                n == v.len(),
                k <= n,
                r@ == match_flags(v, filter.query()).take(k as int),
            decreases n - k,
        {
            proof {
                assert(v[k as int] == self.sections@[k as int]@);
            }
            let m = match &self.sections[k].heading {
                Some(h) => filter.is_match(h.as_str()),
                None => false,
            };
            r.push(m);
            proof {
                assert(r@ =~= match_flags(v, filter.query()).take(k + 1));
            }
            k = k + 1;
        }
        proof {
            assert(r@ =~= match_flags(v, filter.query()));
        }
        r
    }

    /// The tree filtered by the heading query `query`: the subtree of every node whose heading
    /// matches, whole, plus its ancestors, which keep their heading but no paragraph.
    pub fn filtered(&self, query: &str) -> (r: Document)
        requires
            self.wf(),
        ensures
            r.wf(),
            r@ == filter_by_query(self@, query@),
    {
        let filter = HeadingFilter::new(query);
        let flags = self.match_flags(&filter);
        self.retain_matches(&flags)
    }

    /// Whether node `k` has a heading that, raised to capitals, starts with `q`.
    fn heading_starts_at(&self, k: usize, q: &Vec<char>) -> (r: bool)
        requires
            k < self@.len(),
        ensures
            r == heading_starts(self@[k as int], q@),
    {
        proof {
            assert(self@[k as int] == self.sections@[k as int]@);
        }
        match &self.sections[k].heading {
            None => false,
            Some(h) => {
                let hc = chars_of(h.as_str());
                let m = q.len();
                if m > hc.len() {
                    return false;
                }
                let mut j: usize = 0;
                while j < m
                    invariant
                        j <= m,
                        m == q@.len(),
                        m <= hc@.len(),
                        self@[k as int].heading == Some(hc@),
                        forall|i: int| 0 <= i < j ==> upper_code(#[trigger] hc@[i]) == (q@[i] as u32),
                    decreases m - j,
                {
                    let c = hc[j];
                    let code = if 'a' <= c && c <= 'z' {
                        c as u32 - 32
                    } else {
                        c as u32
                    };
                    if code != q[j] as u32 {
                        assert(upper_code(hc@[j as int]) != (q@[j as int] as u32));
                        return false;
                    }
                    j = j + 1;
                }
                true
            },
        }
    }

    /// The end of the subtree of node `k` within `[.., hi)`, sought from `j`.
    fn child_end_at(&self, k: usize, j: usize, hi: usize) -> (r: usize)
        requires
            k < j <= hi <= self@.len(),
        ensures
            r == child_end(self@, k as int, j as int, hi as int),
    {
        let ghost v = self@;
        proof {
            assert(v[k as int] == self.sections@[k as int]@);
        }
        let lk = self.sections[k].level;
        let mut i = j;
        while i < hi
            invariant
                v == self@,
                k < j <= i <= hi <= v.len(),
                lk == v[k as int].level,
                child_end(v, k as int, j as int, hi as int) == child_end(v, k as int, i as int, hi as int),
            decreases hi - i,
        {
            proof {
                assert(v[i as int] == self.sections@[i as int]@);
            }
            if self.sections[i].level <= lk {
                return i;
            }
            i = i + 1;
        }
        hi
    }

    /// The section whose heading starts with `q`, sought among the nodes `[lo, hi)` below a
    /// node of level `lv`.
    fn find_heading_at(&self, q: &Vec<char>, lo: usize, hi: usize, lv: u64) -> (r: Option<usize>)
        requires
            lo <= hi <= self@.len(),
            lv <= u32::MAX,
        ensures
            r matches Some(k) ==> k < self@.len() && find_heading_in(
                self@,
                q@,
                lo as int,
                hi as int,
                lv as nat,
            ) == Some(k as int),
            r is None ==> find_heading_in(self@, q@, lo as int, hi as int, lv as nat) is None,
        decreases hi - lo,
    {
        let ghost v = self@;
        let mut j = lo;
        while j < hi
            invariant
                v == self@,
                lo <= j <= hi <= v.len(),
                lv <= u32::MAX,
                first_heading_match(v, q@, lo as int, hi as int, lv as nat) == first_heading_match(
                    v,
                    q@,
                    j as int,
                    hi as int,
                    lv as nat,
                ),
            decreases hi - j,
        {
            proof {
                assert(v[j as int] == self.sections@[j as int]@);
            }
            if self.sections[j].level as u64 == lv + 1 && self.heading_starts_at(j, q) {
                return Some(j);
            }
            j = j + 1;
        }
        let mut c = lo;
        while c < hi
            invariant
                v == self@,
                lo <= c <= hi <= v.len(),
                lv <= u32::MAX,
                first_heading_match(v, q@, lo as int, hi as int, lv as nat) is None,
                find_in_children(v, q@, lo as int, hi as int, lv as nat) == find_in_children(
                    v,
                    q@,
                    c as int,
                    hi as int,
                    lv as nat,
                ),
            decreases hi - c,
        {
            proof {
                assert(v[c as int] == self.sections@[c as int]@);
            }
            let lc = self.sections[c].level;
            if lc as u64 == lv + 1 {
                let e = self.child_end_at(c, c + 1, hi);
                proof {
                    lemma_child_end(v, c as int, c + 1, hi as int);
                }
                let found = self.find_heading_at(q, c + 1, e, lc as u64);
                if found.is_some() {
                    return found;
                }
                c = e;
            } else {
                c = c + 1;
            }
        }
        None
    }

    /// The first section whose heading, its ASCII letters raised to capitals, starts with
    /// `heading`: first among the top-level sections, then, section after section, within each
    /// one's subtree in the same way. It comes back with its subtree, lifted so that it is at
    /// level 1.
    pub fn get_heading(&self, heading: &str) -> (r: Option<Document>)
        requires
            self.wf(),
        ensures
            find_heading_in(self@, heading@, 0, self@.len() as int, 0) is None ==> r is None,
            find_heading_in(self@, heading@, 0, self@.len() as int, 0) matches Some(k) ==> (
            r matches Some(d) && d.wf() && d@ == lifted_subtree(self@, k)),
    {
        let ghost v = self@;
        let q = chars_of(heading);
        let n = self.sections.len();
        match self.find_heading_at(&q, 0, n, 0) {
            None => None,
            Some(k) => {
                let e = self.child_end_at(k, k + 1, n);
                proof {
                    lemma_child_end(v, k as int, k + 1, n as int);
                    assert(v[k as int] == self.sections@[k as int]@);
                }
                let base = self.sections[k].level;
                proof {
                    assert(level_fits(v, k as int));
                }
                let ghost l = lifted_subtree(v, k as int);
                let mut out = Document::new();
                let mut i = k;
                while i < e
                    invariant
                        v == self@,
                        k < e <= n,
                        n == v.len(),
                        k <= i <= e,
                        e == child_end(v, k as int, k + 1, n as int),
                        base == v[k as int].level,
                        base >= 1,
                        forall|j: int| k < j < e ==> #[trigger] v[j].level > v[k as int].level,
                        l == lifted_subtree(v, k as int),
                        out@ == l.take(i - k),
                    decreases e - i,
                {
                    let d = &self.sections[i];
                    proof {
                        assert(v[i as int] == d@);
                        if i > k {
                            assert(v[i as int].level > v[k as int].level);
                        }
                    }
                    let h = match &d.heading {
                        Some(t) => Some(t.clone()),
                        None => None,
                    };
                    out.push_node(d.level - (base - 1), h, d.paragraphs);
                    proof {
                        assert(out@ =~= l.take(i + 1 - k));
                    }
                    i = i + 1;
                }
                proof {
                    assert(l.take(e - k) =~= l);
                    lemma_lifted_well_formed(v, k as int);
                }
                Some(out)
            },
        }
    }

    /// Adds a paragraph of `p` words to the last node.
    fn add_paragraph(&mut self, p: u32)
        requires
            old(self)@.len() > 0,
            can_push(old(self)@.last().stats, p),
        ensures
            final(self)@ == with_paragraph(old(self)@, p),
    {
        let k = self.sections.len() - 1;
        proof {
            assert(old(self)@[k as int] == old(self).sections@[k as int]@);
        }
        self.sections[k].paragraphs.push(p);
        proof {
            assert(self@ =~= with_paragraph(old(self)@, p));
        }
    }

    /// Applies one line of the document `name`, with `pending` the statistics of the text
    /// before the document's first heading (none once a heading has been seen) and `level` the
    /// level of the document's current section; returns their new values.
    fn apply_line(
        &mut self,
        name: &str,
        line: &Vec<char>,
        pending: Option<Stats>,
        level: u32,
    ) -> (r: (Option<Stats>, u32))
        requires
            pending is None ==> old(self)@.len() > 0,
            pending is Some ==> level == 0,
            level <= last_level(old(self)@),
            sum_words(old(self)@) + pending_words(pending) + line@.len() <= u32::MAX,
            sum_paragraphs(old(self)@) + pending_paragraphs(pending) + line@.len() <= u32::MAX,
        ensures
            (ApplyState { nodes: final(self)@, pending: r.0, level: r.1 as nat }) == step(
                ApplyState { nodes: old(self)@, pending, level: level as nat },
                name@,
                line@,
            ),
            well_shaped(old(self)@) ==> well_shaped(final(self)@),
            r.0 is None ==> final(self)@.len() > 0,
            r.0 is Some ==> r.1 == 0,
            r.1 <= last_level(final(self)@),
            sum_words(final(self)@) + pending_words(r.0) <= sum_words(old(self)@) + pending_words(
                pending,
            ) + line@.len(),
            sum_paragraphs(final(self)@) + pending_paragraphs(r.0) <= sum_paragraphs(old(self)@)
                + pending_paragraphs(pending) + line@.len(),
    {
        proof {
            lemma_sums_nonneg(old(self)@);
        }
        if !is_content(line) {
            return (pending, level);
        }
        if line.len() > 0 && line[0] == '#' {
            match pending {
                Some(b) => {
                    if b.paragraph_count > 0 {
                        let ghost before = self@;
                        self.push_node(1, Some(name.to_owned()), b);
                        proof {
                            lemma_sums_push(before, source_node(name@, b));
                            if well_shaped(before) {
                                lemma_well_shaped_push(before, source_node(name@, b));
                            }
                        }
                    }
                },
                None => {},
            }
            let h = Heading::from_chars(line);
            proof {
                lemma_hashes_end(line@, 1);
            }
            let hl = h.level;
            self.new_document(level, hl, h.text);
            (None, hl)
        } else {
            let w = count_words_in(line);
            proof {
                lemma_words_at_most_chars(line@);
            }
            if w == 0 {
                return (pending, level);
            }
            match pending {
                Some(b) => {
                    let mut b2 = b;
                    b2.push(w);
                    (Some(b2), level)
                },
                None => {
                    let ghost before = self@;
                    proof {
                        lemma_sums_nonneg(before.drop_last());
                    }
                    self.add_paragraph(w);
                    proof {
                        let x = self@.last();
                        lemma_sums_update_last(before, x);
                        if well_shaped(before) {
                            assert forall|k: int| 0 <= k < self@.len() implies #[trigger] level_fits(
                                self@,
                                k,
                            ) by {
                                assert(level_fits(before, k));
                            }
                        }
                        assert(last_level(self@) == last_level(before));
                    }
                    (None, level)
                },
            }
        }
    }

    /// Applies the document `name` with the raw text `text`: markup is removed, then each
    /// heading opens a section at its level, the document's first one from the root (with
    /// placeholders for skipped levels), and each
    /// content line with words is a paragraph of the current section. Text before the first
    /// heading, or the whole text if there is no heading, becomes a section at level 1 named
    /// after the document.
    pub fn apply_text(&mut self, name: &str, text: &str)
        requires
            old(self).wf(),
            sum_words(old(self)@) + text@.len() <= u32::MAX,
            sum_paragraphs(old(self)@) + text@.len() <= u32::MAX,
        ensures
            final(self).wf(),
            final(self)@ == apply_document(old(self)@, name@, text@),
    {
        let raw = chars_of(text);
        let s = strip_chars(&raw);
        let ghost t = s@;
        let ghost start = self@;
        let ghost init = ApplyState { nodes: start, pending: Some(zero_stats()), level: 0 };
        let ghost mut done: Seq<Seq<char>> = Seq::empty();
        let n = s.len();
        let mut pending: Option<Stats> = Some(Stats::new());
        let mut level: u32 = 0;
        let mut i: usize = 0;
        proof {
            assert(init.pending == pending);
        }
        while i < n
            invariant
                t == s@,
                n == t.len(),
                n <= text@.len(),
                i <= n,
                well_shaped(start) ==> well_shaped(self@),
                pending is None ==> self@.len() > 0,
                pending is Some ==> level == 0,
                level <= last_level(self@),
                sum_words(self@) + pending_words(pending) + (n - i) <= u32::MAX,
                sum_paragraphs(self@) + pending_paragraphs(pending) + (n - i) <= u32::MAX,
                lines_from(t, 0) == done + lines_from(t, i as int),
                run_lines(init, name@, done) == (ApplyState {
                    nodes: self@,
                    pending,
                    level: level as nat,
                }),
            decreases n - i,
        {
            let e = find_char_exec(&s, i, '\n');
            proof {
                lemma_find_char(t, i as int, '\n');
            }
            let line = slice_chars(&s, i, e);
            let (p, l) = self.apply_line(name, &line, pending, level);
            pending = p;
            level = l;
            proof {
                let rest = if e < n {
                    lines_from(t, e + 1)
                } else {
                    Seq::empty()
                };
                assert(lines_from(t, i as int) == seq![line@] + rest);
                assert(done + lines_from(t, i as int) =~= done.push(line@) + rest);
                assert(done.push(line@).drop_last() =~= done);
                done = done.push(line@);
                if e >= n {
                    assert(lines_from(t, n as int) =~= Seq::<Seq<char>>::empty());
                }
            }
            if e < n {
                i = e + 1;
            } else {
                i = n;
            }
        }
        proof {
            assert(done + lines_from(t, n as int) =~= done);
        }
        match pending {
            Some(b) => {
                let ghost before = self@;
                self.push_node(1, Some(name.to_owned()), b);
                proof {
                    lemma_sums_push(before, source_node(name@, b));
                    if well_shaped(before) {
                        lemma_well_shaped_push(before, source_node(name@, b));
                    }
                }
            },
            None => {},
        }
    }

    /// Opens a section at `level` in a document whose current section is at level `from` (0
    /// before its first heading), with placeholders for the levels between the two.
    fn new_document(&mut self, from: u32, level: u32, text: String)
        requires
            level >= 1,
            from <= last_level(old(self)@),
        ensures
            final(self)@ == open_section(old(self)@, from as nat, level as nat, text@),
            well_shaped(old(self)@) ==> well_shaped(final(self)@),
            sum_words(final(self)@) == sum_words(old(self)@),
            sum_paragraphs(final(self)@) == sum_paragraphs(old(self)@),
    {
        let ghost start = self@;
        let mut current: u32 = from;
        let ghost first = current;
        while current < level - 1
            invariant
                level >= 1,
                first == from,
                first <= current,
                current < level || current == first,
                self@ == start + placeholders((first + 1) as nat, (current + 1) as nat),
                current <= last_level(self@),
                well_shaped(start) ==> well_shaped(self@),
                sum_words(self@) == sum_words(start),
                sum_paragraphs(self@) == sum_paragraphs(start),
            decreases level - current,
        {
            let ghost before = self@;
            self.push_node(current + 1, None, Stats::new());
            proof {
                lemma_sums_push(before, placeholder((current + 1) as nat));
                if well_shaped(before) {
                    lemma_well_shaped_push(before, placeholder((current + 1) as nat));
                }
                assert(self@ =~= start + placeholders((first + 1) as nat, (current + 2) as nat));
                assert(last_level(self@) == current + 1);
            }
            current = current + 1;
        }
        let ghost before = self@;
        self.push_node(level, Some(text), Stats::new());
        proof {
            lemma_sums_push(
                before,
                NodeView { level: level as nat, heading: Some(text@), stats: zero_stats() },
            );
            if well_shaped(before) {
                lemma_well_shaped_push(
                    before,
                    NodeView { level: level as nat, heading: Some(text@), stats: zero_stats() },
                );
            }
            if level <= first + 1 {
                assert(placeholders((first + 1) as nat, (current + 1) as nat) =~= placeholders(
                    (first + 1) as nat,
                    level as nat,
                ));
            }
            assert(self@ =~= open_section(start, from as nat, level as nat, text@));
        }
    }
}

/// Builds a document tree from the documents applied to it one after another.
#[derive(Clone, Debug)]
pub struct DocumentBuilder {
    root: Document,
}

impl View for DocumentBuilder {
    type V = Seq<NodeView>;

    closed spec fn view(&self) -> Seq<NodeView> {
        self.root@
    }
}

impl DocumentBuilder {
    /// The well-formedness of the tree being built.
    pub open spec fn wf(&self) -> bool {
        well_formed(self@)
    }

    /// A builder with an empty tree.
    pub fn new() -> (r: DocumentBuilder)
        ensures
            r@ == Seq::<NodeView>::empty(),
            r.wf(),
    {
        DocumentBuilder { root: Document::new() }
    }

    /// Applies the document `name` with the raw text `text`; see `Document::apply_text`.
    pub fn apply(&mut self, name: &str, text: &str)
        requires
            old(self).wf(),
            room_for(old(self)@, text@),
        ensures
            final(self).wf(),
            final(self)@ == apply_document(old(self)@, name@, text@),
    {
        self.root.apply_text(name, text);
    }

    /// Whether `text` can be applied without overflowing a counter.
    pub fn has_room_for(&self, text: &str) -> (r: bool)
        requires
            self.wf(),
        ensures
            r == room_for(self@, text@),
    {
        self.root.has_room_for(text)
    }

    /// The tree that was built.
    pub fn finalize(self) -> (r: Document)
        ensures
            r@ == self@,
    {
        self.root
    }
}

} // verus!
