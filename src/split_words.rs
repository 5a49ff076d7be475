use vstd::prelude::*;
use crate::chars::{chars_of, is_whitespace, is_ws, slice_chars, string_of};

verus! {

/// ASCII punctuation, as `char::is_ascii_punctuation` classifies it.
pub open spec fn is_ascii_punct(c: char) -> bool {
    ||| ('!' <= c && c <= '/')
    ||| (':' <= c && c <= '@')
    ||| ('[' <= c && c <= '`')
    ||| ('{' <= c && c <= '~')
}

/// A character that separates words: white space, or ASCII punctuation other than the colon
/// (clock times) and the apostrophe (contractions).
pub open spec fn is_break(c: char) -> bool {
    is_ws(c) || (is_ascii_punct(c) && c != ':' && c != '\'')
}

/// The end of the run of non-separators that starts at `i`.
pub open spec fn run_end(s: Seq<char>, i: int) -> int
    decreases s.len() - i,
{
    if i < 0 || i >= s.len() || is_break(s[i]) {
        i
    } else {
        run_end(s, i + 1)
    }
}

/// The words of `s[i..]`: its maximal runs of characters that are not separators.
pub open spec fn words_split(s: Seq<char>, i: int) -> Seq<Seq<char>>
    decreases s.len() - i,
{
    if i < 0 || i >= s.len() {
        Seq::empty()
    } else if is_break(s[i]) {
        words_split(s, i + 1)
    } else {
        proof {
            lemma_run_end(s, i);
        }
        seq![s.subrange(i, run_end(s, i))] + words_split(s, run_end(s, i))
    }
}

pub proof fn lemma_run_end(s: Seq<char>, i: int)
    requires
        0 <= i <= s.len(),
    ensures
        i <= run_end(s, i) <= s.len(),
        i < s.len() && !is_break(s[i]) ==> i < run_end(s, i),
    decreases s.len() - i,
{
    if i < s.len() && !is_break(s[i]) {
        lemma_run_end(s, i + 1);
    }
}

/// Whether a character separates words.
pub fn is_break_char(c: char) -> (r: bool)
    ensures
        r == is_break(c),
{
    is_whitespace(c) || ((('!' <= c && c <= '/') || (':' <= c && c <= '@') || ('[' <= c && c
        <= '`') || ('{' <= c && c <= '~')) && c != ':' && c != '\'')
}

/// The words of a text, handed out one at a time.
pub struct WordIterator {
    source: Vec<char>,
    idx: usize,
}

impl WordIterator {
    /// The words not handed out yet.
    pub closed spec fn remaining(&self) -> Seq<Seq<char>> {
        words_split(self.source@, self.idx as int)
    }

    /// The text whose words are handed out.
    pub closed spec fn text(&self) -> Seq<char> {
        self.source@
    }

    pub closed spec fn wf(&self) -> bool {
        self.idx <= self.source@.len()
    }

    /// The next word, if any.
    pub fn next(&mut self) -> (r: Option<String>)
        requires
            old(self).wf(),
        ensures
            final(self).wf(),
            final(self).text() == old(self).text(),
            old(self).remaining().len() == 0 ==> r is None && final(self).remaining() == old(
                self,
            ).remaining(),
            old(self).remaining().len() > 0 ==> (r matches Some(w) && w@ == old(self).remaining()[0]
                && final(self).remaining() == old(self).remaining().drop_first()),
    {
        let n = self.source.len();
        let ghost s = self.source@;
        while self.idx < n && is_break_char(self.source[self.idx])
            invariant
                self.source@ == s,
                n == s.len(),
                self.idx <= n,
                words_split(s, self.idx as int) == old(self).remaining(),
            decreases n - self.idx,
        {
            self.idx = self.idx + 1;
        }
        if self.idx >= n {
            return None;
        }
        let start = self.idx;
        let mut e = start;
        while e < n && !is_break_char(self.source[e])
            invariant
                self.source@ == s,
                n == s.len(),
                start <= e <= n,
                run_end(s, start as int) == run_end(s, e as int),
            decreases n - e,
        {
            e = e + 1;
        }
        proof {
            lemma_run_end(s, start as int);
        }
        let w = slice_chars(&self.source, start, e);
        self.idx = e;
        Some(string_of(w.as_slice()))
    }

    /// The number of words not handed out yet.
    pub fn count(self) -> (r: usize)
        requires
            self.wf(),
        ensures
            r == self.remaining().len(),
    {
        let total = self.source.len();
        let mut it = self;
        let mut c: usize = 0;
        proof {
            lemma_words_split_len(it.source@, it.idx as int);
        }
        loop
            invariant
                it.wf(),
                c + it.remaining().len() == self.remaining().len(),
                it.remaining().len() <= it.source@.len() - it.idx,
                it.source@.len() == total,
                self.remaining().len() <= total,
            decreases it.remaining().len(),
        {
            match it.next() {
                Some(_) => {
                    c = c + 1;
                    proof {
                        lemma_words_split_len(it.source@, it.idx as int);
                    }
                },
                None => {
                    return c;
                },
            }
        }
    }
}

proof fn lemma_words_split_len(s: Seq<char>, i: int)
    requires
        0 <= i <= s.len(),
    ensures
        words_split(s, i).len() <= s.len() - i,
    decreases s.len() - i,
{
    if i < s.len() {
        if is_break(s[i]) {
            lemma_words_split_len(s, i + 1);
        } else {
            lemma_run_end(s, i);
            lemma_words_split_len(s, run_end(s, i));
        }
    }
}

/// Splitting a text into words at white space and punctuation.
pub trait SplitWords {
    /// The text that is split.
    spec fn split_source(&self) -> Seq<char>;

    /// The words of the text, in order.
    fn split_words(&self) -> (r: WordIterator)
        ensures
            r.wf(),
            r.remaining() == words_split(self.split_source(), 0),
    ;
}

impl SplitWords for str {
    open spec fn split_source(&self) -> Seq<char> {
        self@
    }

    fn split_words(&self) -> (r: WordIterator) {
        WordIterator { source: chars_of(self), idx: 0 }
    }
}

} // verus!
