use vstd::prelude::*;
use crate::chars::{chars_of, is_whitespace, is_ws, string_of};

verus! {

/// A Markdown heading: its nesting level and its display text.
#[derive(Clone, Debug)]
pub struct Heading {
    pub level: u32,
    pub text: String,
}

/// Whether a line is a heading: it starts with `#`.
pub open spec fn is_heading_line(line: Seq<char>) -> bool {
    line.len() > 0 && line[0] == '#'
}

/// The end of the run of `#` that starts at `i`.
pub open spec fn hashes_end(line: Seq<char>, i: int) -> int
    decreases line.len() - i,
{
    if i < 0 || i >= line.len() || line[i] != '#' {
        i
    } else {
        hashes_end(line, i + 1)
    }
}

/// The end of the run of `#` and white space that starts at `i`.
pub open spec fn marker_end(line: Seq<char>, i: int) -> int
    decreases line.len() - i,
{
    if i < 0 || i >= line.len() || !(line[i] == '#' || is_ws(line[i])) {
        i
    } else {
        marker_end(line, i + 1)
    }
}

/// `e` moved back over the white space that ends `line[..e)`.
pub open spec fn trimmed_end(line: Seq<char>, e: int) -> int
    decreases e,
{
    if e <= 0 || e > line.len() || !is_ws(line[e - 1]) {
        e
    } else {
        trimmed_end(line, e - 1)
    }
}

/// A text without the emphasis markers `*` and `_`.
pub open spec fn without_emphasis(s: Seq<char>) -> Seq<char>
    decreases s.len(),
{
    if s.len() == 0 {
        s
    } else {
        let rest = without_emphasis(s.drop_last());
        if s.last() == '*' || s.last() == '_' {
            rest
        } else {
            rest.push(s.last())
        }
    }
}

/// The level of a heading line: the number of `#` that start it.
pub open spec fn heading_level(line: Seq<char>) -> nat {
    hashes_end(line, 0) as nat
}

/// The text of a heading line: what follows the leading `#` and white space, without the
/// white space that ends the line, and without `*` and `_`.
pub open spec fn heading_text(line: Seq<char>) -> Seq<char> {
    let start = marker_end(line, 0);
    let end = trimmed_end(line, line.len() as int);
    if start < end {
        without_emphasis(line.subrange(start, end))
    } else {
        Seq::empty()
    }
}

pub proof fn lemma_hashes_end(line: Seq<char>, i: int)
    requires
        0 <= i <= line.len(),
    ensures
        i <= hashes_end(line, i) <= line.len(),
    decreases line.len() - i,
{
    if i < line.len() && line[i] == '#' {
        lemma_hashes_end(line, i + 1);
    }
}

impl Heading {
    /// Reads a heading line: the level is the number of leading `#`; the text is what follows
    /// the leading `#` and white space, trimmed at the end, with `*` and `_` removed.
    pub fn from_chars(line: &Vec<char>) -> (r: Heading)
        requires
            line@.len() <= u32::MAX,
        ensures
            r.level == heading_level(line@),
            r.text@ == heading_text(line@),
    {
        let ghost l = line@;
        let n = line.len();
        let mut level: usize = 0;
        while level < n && line[level] == '#'
            invariant
                level <= n,
                n == l.len(),
                l == line@,
                hashes_end(l, 0) == hashes_end(l, level as int),
            decreases n - level,
        {
            level = level + 1;
        }
        let mut start: usize = 0;
        while start < n && (line[start] == '#' || is_whitespace(line[start]))
            invariant
                start <= n,
                n == l.len(),
                l == line@,
                marker_end(l, 0) == marker_end(l, start as int),
            decreases n - start,
        {
            start = start + 1;
        }
        let mut end: usize = n;
        while end > 0 && is_whitespace(line[end - 1])
            invariant
                end <= n,
                n == l.len(),
                l == line@,
                trimmed_end(l, n as int) == trimmed_end(l, end as int),
            decreases end,
        {
            end = end - 1;
        }
        let mut text: Vec<char> = Vec::new();
        if start < end {
            let mut k: usize = start;
            while k < end
                invariant
                    start <= k <= end <= n,
                    n == l.len(),
                    l == line@,
                    text@ == without_emphasis(l.subrange(start as int, k as int)),
                decreases end - k,
            {
                let c = line[k];
                proof {
                    assert(l.subrange(start as int, k + 1).drop_last() =~= l.subrange(
                        start as int,
                        k as int,
                    ));
                }
                if c != '*' && c != '_' {
                    text.push(c);
                }
                k = k + 1;
            }
        }
        Heading { level: level as u32, text: string_of(text.as_slice()) }
    }

    /// Reads a heading line, as `from_chars` does.
    pub fn from_str(s: &str) -> (r: Heading)
        requires
            s@.len() <= u32::MAX,
        ensures
            r.level == heading_level(s@),
            r.text@ == heading_text(s@),
    {
        let line = chars_of(s);
        Heading::from_chars(&line)
    }
}

} // verus!
