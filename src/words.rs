use vstd::prelude::*;
use crate::chars::{chars_of, is_alnum, is_alphanumeric, is_whitespace, is_ws};

verus! {

/// The end of the whitespace-free chunk that starts at `i`: the first white space at or after
/// `i`, or the end of `s`.
pub open spec fn chunk_end(s: Seq<char>, i: int) -> int
    decreases s.len() - i,
{
    if i >= s.len() {
        s.len() as int
    } else if is_ws(s[i]) {
        i
    } else {
        chunk_end(s, i + 1)
    }
}

/// Whether an em dash typed as `---` starts at `k`.
pub open spec fn dashes_at(s: Seq<char>, k: int) -> bool {
    &&& 0 <= k
    &&& k + 3 <= s.len()
    &&& s[k] == '-'
    &&& s[k + 1] == '-'
    &&& s[k + 2] == '-'
}

/// The start of the first `---` that lies whole in `s[i..e)`, or `e` if there is none.
pub open spec fn dash_split(s: Seq<char>, i: int, e: int) -> int
    decreases e - i,
{
    if i + 3 > e {
        e
    } else if dashes_at(s, i) {
        i
    } else {
        dash_split(s, i + 1, e)
    }
}

/// Whether `s[i..e)` holds an ASCII letter or digit.
pub open spec fn has_alnum(s: Seq<char>, i: int, e: int) -> bool {
    exists|k: int| i <= k < e && #[trigger] is_alnum(s[k])
}

/// The words of the chunk `s[i..e)`: the pieces between the `---` splitters that hold an ASCII
/// letter or digit.
pub open spec fn chunk_words(s: Seq<char>, i: int, e: int) -> nat
    decreases e - i,
{
    let k = dash_split(s, i, e);
    if i > e || k >= e {
        if has_alnum(s, i, e) {
            1
        } else {
            0
        }
    } else {
        proof {
            lemma_dash_split_bounds(s, i, e);
        }
        (if has_alnum(s, i, k) {
            1nat
        } else {
            0nat
        }) + chunk_words(s, k + 3, e)
    }
}

/// The words of `s[i..]`: white space splits it into chunks, and each chunk counts the words
/// of its pieces.
pub open spec fn words_from(s: Seq<char>, i: int) -> nat
    decreases s.len() - i,
{
    if i < 0 || i >= s.len() {
        0
    } else if is_ws(s[i]) {
        words_from(s, i + 1)
    } else {
        proof {
            lemma_chunk_end_bounds(s, i);
        }
        chunk_words(s, i, chunk_end(s, i)) + words_from(s, chunk_end(s, i))
    }
}

/// The number of words in a text.
pub open spec fn count_words(s: Seq<char>) -> nat {
    words_from(s, 0)
}

/// The number of whitespace-delimited tokens of `s[i..]`.
pub open spec fn tokens_from(s: Seq<char>, i: int) -> nat
    decreases s.len() - i,
{
    if i < 0 || i >= s.len() {
        0
    } else if is_ws(s[i]) {
        tokens_from(s, i + 1)
    } else {
        proof {
            lemma_chunk_end_bounds(s, i);
        }
        1 + tokens_from(s, chunk_end(s, i))
    }
}

pub proof fn lemma_chunk_end_bounds(s: Seq<char>, i: int)
    requires
        0 <= i <= s.len(),
    ensures
        i <= chunk_end(s, i) <= s.len(),
        i < s.len() && !is_ws(s[i]) ==> i < chunk_end(s, i),
        forall|k: int| i <= k < chunk_end(s, i) ==> !is_ws(#[trigger] s[k]),
        chunk_end(s, i) < s.len() ==> is_ws(s[chunk_end(s, i)]),
    decreases s.len() - i,
{
    if i < s.len() && !is_ws(s[i]) {
        lemma_chunk_end_bounds(s, i + 1);
    }
}

pub proof fn lemma_dash_split_bounds(s: Seq<char>, i: int, e: int)
    ensures
        i <= e ==> i <= dash_split(s, i, e) <= e,
        dash_split(s, i, e) < e ==> dashes_at(s, dash_split(s, i, e)) && dash_split(s, i, e) + 3
            <= e,
    decreases e - i,
{
    if i + 3 <= e && !dashes_at(s, i) {
        lemma_dash_split_bounds(s, i + 1, e);
    }
}

proof fn lemma_chunk_words_bound(s: Seq<char>, i: int, e: int)
    requires
        0 <= i <= e,
    ensures
        chunk_words(s, i, e) <= e - i,
    decreases e - i,
{
    lemma_dash_split_bounds(s, i, e);
    let k = dash_split(s, i, e);
    if k < e {
        lemma_chunk_words_bound(s, k + 3, e);
    }
}

proof fn lemma_words_from_bound(s: Seq<char>, i: int)
    requires
        0 <= i <= s.len(),
    ensures
        words_from(s, i) <= s.len() - i,
    decreases s.len() - i,
{
    if i < s.len() {
        if is_ws(s[i]) {
            lemma_words_from_bound(s, i + 1);
        } else {
            lemma_chunk_end_bounds(s, i);
            lemma_chunk_words_bound(s, i, chunk_end(s, i));
            lemma_words_from_bound(s, chunk_end(s, i));
        }
    }
}

/// The number of words in a text is at most its number of characters.
pub proof fn lemma_words_at_most_chars(s: Seq<char>)
    ensures
        count_words(s) <= s.len(),
{
    lemma_words_from_bound(s, 0);
}

proof fn lemma_no_dash_split(s: Seq<char>, i: int, e: int)
    requires
        0 <= i <= e <= s.len(),
        forall|k: int| i <= k < e ==> #[trigger] s[k] != '-',
    ensures
        dash_split(s, i, e) == e,
    decreases e - i,
{
    if i + 3 <= e {
        lemma_no_dash_split(s, i + 1, e);
    }
}

proof fn lemma_plain_tokens_from(s: Seq<char>, i: int)
    requires
        0 <= i <= s.len(),
        forall|k: int| 0 <= k < s.len() ==> is_ws(#[trigger] s[k]) || is_alnum(s[k]),
    ensures
        words_from(s, i) == tokens_from(s, i),
    decreases s.len() - i,
{
    if i < s.len() {
        if is_ws(s[i]) {
            lemma_plain_tokens_from(s, i + 1);
        } else {
            let e = chunk_end(s, i);
            lemma_chunk_end_bounds(s, i);
            assert forall|k: int| i <= k < e implies #[trigger] s[k] != '-' by {
                assert(is_ws(s[k]) || is_alnum(s[k]));
            }
            lemma_no_dash_split(s, i, e);
            assert(is_alnum(s[i]));
            assert(has_alnum(s, i, e));
            lemma_plain_tokens_from(s, e);
        }
    }
}

/// In a text made only of white space and ASCII letters and digits, every
/// whitespace-delimited token is exactly one word.
pub proof fn lemma_plain_text_words(s: Seq<char>)
    requires
        forall|k: int| 0 <= k < s.len() ==> is_ws(#[trigger] s[k]) || is_alnum(s[k]),
    ensures
        count_words(s) == tokens_from(s, 0),
{
    lemma_plain_tokens_from(s, 0);
}

/// The words of the chunk `s[i..e)`.
fn chunk_word_count(s: &Vec<char>, i: usize, e: usize) -> (r: u32)
    requires
        i < e <= s@.len(),
        e - i <= u32::MAX,
        forall|k: int| i <= k < e ==> !is_ws(#[trigger] s@[k]),
    ensures
        r == chunk_words(s@, i as int, e as int),
{
    let ghost t = s@;
    let mut acc: u32 = 0;
    let mut p: usize = i;
    let mut j: usize = i;
    let mut seen: bool = false;
    while j < e
        invariant
            t == s@,
            i <= p <= j <= e <= t.len(),
            e - i <= u32::MAX,
            acc + chunk_words(t, p as int, e as int) == chunk_words(t, i as int, e as int),
            acc <= p - i,
            seen == has_alnum(t, p as int, j as int),
            dash_split(t, p as int, e as int) == dash_split(t, j as int, e as int),
        decreases e - j,
    {
        if e - j >= 3 && s[j] == '-' && s[j + 1] == '-' && s[j + 2] == '-' {
            proof {
                lemma_dash_split_bounds(t, p as int, e as int);
                assert(dash_split(t, p as int, e as int) == j);
            }
            if seen {
                acc = acc + 1;
            }
            j = j + 3;
            p = j;
            seen = false;
        } else {
            if is_alphanumeric(s[j]) {
                seen = true;
            }
            j = j + 1;
        }
    }
    proof {
        lemma_dash_split_bounds(t, p as int, e as int);
    }
    if seen {
        acc = acc + 1;
    }
    acc
}

/// Counts the words of a line or paragraph. White space splits the text into chunks; inside a
/// chunk each `---` splits again, while a single or double hyphen, a colon or an apostrophe does
/// not; a piece is a word when it holds an ASCII letter or digit.
pub fn word_count(text: &str) -> (r: u32)
    requires
        text@.len() <= u32::MAX,
    ensures
        r == count_words(text@),
{
    let s = chars_of(text);
    count_words_in(&s)
}

/// Counts the words of a sequence of characters, as `word_count` does.
pub fn count_words_in(s: &Vec<char>) -> (r: u32)
    requires
        s@.len() <= u32::MAX,
    ensures
        r == count_words(s@),
{
    let ghost t = s@;
    let n = s.len();
    let mut count: u32 = 0;
    let mut i: usize = 0;
    while i < n
        invariant
            t == s@,
            n == t.len(),
            n <= u32::MAX,
            i <= n,
            count + words_from(t, i as int) == words_from(t, 0),
            count <= i,
        decreases n - i,
    {
        if is_whitespace(s[i]) {
            i = i + 1;
        } else {
            let mut e: usize = i;
            while e < n && !is_whitespace(s[e])
                invariant
                    i <= e <= n,
                    n == s@.len(),
                    chunk_end(s@, i as int) == chunk_end(s@, e as int),
                    forall|k: int| i <= k < e ==> !is_ws(#[trigger] s@[k]),
                decreases n - e,
            {
                e = e + 1;
            }
            proof {
                lemma_chunk_words_bound(t, i as int, e as int);
            }
            let w = chunk_word_count(s, i, e);
            count = count + w;
            i = e;
        }
    }
    count
}

} // verus!
