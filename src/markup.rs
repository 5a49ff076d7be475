use vstd::prelude::*;
use crate::chars::{chars_of, string_of};

verus! {

/// Whether an HTML comment opens at `i`: `<!--`.
pub open spec fn comment_open_at(s: Seq<char>, i: int) -> bool {
    &&& 0 <= i
    &&& i + 4 <= s.len()
    &&& s[i] == '<'
    &&& s[i + 1] == '!'
    &&& s[i + 2] == '-'
    &&& s[i + 3] == '-'
}

/// Whether an HTML comment closes at `i`: `-->`.
pub open spec fn comment_close_at(s: Seq<char>, i: int) -> bool {
    &&& 0 <= i
    &&& i + 3 <= s.len()
    &&& s[i] == '-'
    &&& s[i + 1] == '-'
    &&& s[i + 2] == '>'
}

/// Whether an inline note opens at `i`: `<note`.
pub open spec fn note_open_at(s: Seq<char>, i: int) -> bool {
    &&& 0 <= i
    &&& i + 5 <= s.len()
    &&& s[i] == '<'
    &&& s[i + 1] == 'n'
    &&& s[i + 2] == 'o'
    &&& s[i + 3] == 't'
    &&& s[i + 4] == 'e'
}

/// The first `-->` at or after `k`, or the length of `s` if there is none.
pub open spec fn find_comment_close(s: Seq<char>, k: int) -> int
    decreases s.len() - k,
{
    if k < 0 || k >= s.len() {
        s.len() as int
    } else if comment_close_at(s, k) {
        k
    } else {
        find_comment_close(s, k + 1)
    }
}

/// The first occurrence of `c` at or after `k`, or the length of `s` if there is none.
pub open spec fn find_char(s: Seq<char>, k: int, c: char) -> int
    decreases s.len() - k,
{
    if k < 0 || k >= s.len() {
        s.len() as int
    } else if s[k] == c {
        k
    } else {
        find_char(s, k + 1, c)
    }
}

/// A character that ends a footnote label.
pub open spec fn is_label_stop(c: char) -> bool {
    c == '[' || c == ']' || c == '\n'
}

/// The first character at or after `k` that ends a footnote label, or the length of `s`.
pub open spec fn label_stop(s: Seq<char>, k: int) -> int
    decreases s.len() - k,
{
    if k < 0 || k >= s.len() {
        s.len() as int
    } else if is_label_stop(s[k]) {
        k
    } else {
        label_stop(s, k + 1)
    }
}

/// Where a footnote reference `[^label]` that starts at `i` ends (just past its `]`); the label
/// is not empty and holds no `[`, `]` or line break.
pub open spec fn footnote_end(s: Seq<char>, i: int) -> Option<int> {
    if 0 <= i && i + 2 <= s.len() && s[i] == '[' && s[i + 1] == '^' {
        let j = label_stop(s, i + 2);
        if j < s.len() && s[j] == ']' && j > i + 2 {
            Some(j + 1)
        } else {
            None
        }
    } else {
        None
    }
}

/// Whether `i` is the first position of a line.
pub open spec fn at_line_start(s: Seq<char>, i: int) -> bool {
    i == 0 || (0 < i && s[i - 1] == '\n')
}

/// Whether a footnote definition `[^label]:` starts the line at `i`.
pub open spec fn footnote_definition_at(s: Seq<char>, i: int) -> bool {
    &&& at_line_start(s, i)
    &&& footnote_end(s, i) is Some
    &&& footnote_end(s, i)->0 < s.len()
    &&& s[footnote_end(s, i)->0] == ':'
}

/// The text of `s[i..]` with markup removed: HTML comments `<!-- ... -->`, inline notes
/// `<note ... >`, footnote definitions through the end of their line (the line break stays), and
/// footnote references `[^label]`. An opener that is never closed removes the rest of the text.
pub open spec fn strip_from(s: Seq<char>, i: int) -> Seq<char>
    decreases s.len() - i,
{
    if i < 0 || i >= s.len() {
        Seq::empty()
    } else if comment_open_at(s, i) {
        let c = find_comment_close(s, i + 4);
        proof {
            lemma_find_comment_close(s, i + 4);
        }
        if c >= s.len() {
            Seq::empty()
        } else {
            strip_from(s, c + 3)
        }
    } else if note_open_at(s, i) {
        let g = find_char(s, i + 5, '>');
        proof {
            lemma_find_char(s, i + 5, '>');
        }
        if g >= s.len() {
            Seq::empty()
        } else {
            strip_from(s, g + 1)
        }
    } else if footnote_definition_at(s, i) {
        proof {
            lemma_label_stop(s, i + 2);
            lemma_find_char(s, footnote_end(s, i)->0, '\n');
        }
        strip_from(s, find_char(s, footnote_end(s, i)->0, '\n'))
    } else if footnote_end(s, i) is Some {
        proof {
            lemma_label_stop(s, i + 2);
        }
        strip_from(s, footnote_end(s, i)->0)
    } else {
        seq![s[i]] + strip_from(s, i + 1)
    }
}

/// A text with its comments, notes and footnotes removed.
pub open spec fn strip_markup(s: Seq<char>) -> Seq<char> {
    strip_from(s, 0)
}

pub proof fn lemma_find_comment_close(s: Seq<char>, k: int)
    requires
        0 <= k,
    ensures
        k <= find_comment_close(s, k) <= s.len() || (k > s.len() && find_comment_close(s, k)
            == s.len()),
        find_comment_close(s, k) < s.len() ==> comment_close_at(s, find_comment_close(s, k)),
        forall|j: int| k <= j < find_comment_close(s, k) ==> !comment_close_at(s, j),
    decreases s.len() - k,
{
    if k < s.len() && !comment_close_at(s, k) {
        lemma_find_comment_close(s, k + 1);
    }
}

pub proof fn lemma_find_char(s: Seq<char>, k: int, c: char)
    requires
        0 <= k,
    ensures
        k <= find_char(s, k, c) <= s.len() || (k > s.len() && find_char(s, k, c) == s.len()),
        find_char(s, k, c) < s.len() ==> s[find_char(s, k, c)] == c,
    decreases s.len() - k,
{
    if k < s.len() && s[k] != c {
        lemma_find_char(s, k + 1, c);
    }
}

pub proof fn lemma_label_stop(s: Seq<char>, k: int)
    requires
        0 <= k,
    ensures
        k <= label_stop(s, k) <= s.len() || (k > s.len() && label_stop(s, k) == s.len()),
        label_stop(s, k) < s.len() ==> is_label_stop(s[label_stop(s, k)]),
    decreases s.len() - k,
{
    if k < s.len() && !is_label_stop(s[k]) {
        lemma_label_stop(s, k + 1);
    }
}

fn find_comment_close_exec(s: &Vec<char>, k: usize) -> (r: usize)
    requires
        k <= s@.len(),
    ensures
        r == find_comment_close(s@, k as int),
{
    let n = s.len();
    let mut j = k;
    while j < n
        invariant
            k <= j <= n,
            n == s@.len(),
            find_comment_close(s@, k as int) == find_comment_close(s@, j as int),
        decreases n - j,
    {
        if n - j >= 3 && s[j] == '-' && s[j + 1] == '-' && s[j + 2] == '>' {
            return j;
        }
        j = j + 1;
    }
    n
}

pub fn find_char_exec(s: &Vec<char>, k: usize, c: char) -> (r: usize)
    requires
        k <= s@.len(),
    ensures
        r == find_char(s@, k as int, c),
{
    let n = s.len();
    let mut j = k;
    while j < n
        invariant
            k <= j <= n,
            n == s@.len(),
            find_char(s@, k as int, c) == find_char(s@, j as int, c),
        decreases n - j,
    {
        if s[j] == c {
            return j;
        }
        j = j + 1;
    }
    n
}

fn footnote_end_exec(s: &Vec<char>, i: usize) -> (r: Option<usize>)
    requires
        i < s@.len(),
    ensures
        r matches Some(e) ==> footnote_end(s@, i as int) == Some(e as int),
        r is None ==> footnote_end(s@, i as int) is None,
{
    let n = s.len();
    if n - i >= 2 && s[i] == '[' && s[i + 1] == '^' {
        let mut j = i + 2;
        while j < n && !(s[j] == '[' || s[j] == ']' || s[j] == '\n')
            invariant
                i + 2 <= j <= n,
                n == s@.len(),
                label_stop(s@, i + 2) == label_stop(s@, j as int),
            decreases n - j,
        {
            j = j + 1;
        }
        if j < n && s[j] == ']' && j > i + 2 {
            Some(j + 1)
        } else {
            None
        }
    } else {
        None
    }
}

/// Removes HTML comments, inline notes and footnotes from a sequence of characters, in one
/// pass from left to right.
pub fn strip_chars(s: &Vec<char>) -> (r: Vec<char>)
    ensures
        r@ == strip_markup(s@),
        r@.len() <= s@.len(),
{
    let ghost t = s@;
    let n = s.len();
    let mut out: Vec<char> = Vec::new();
    let mut i: usize = 0;
    while i < n
        invariant
            t == s@,
            n == t.len(),
            i <= n,
            out@ + strip_from(t, i as int) == strip_from(t, 0),
            out@.len() <= i,
        decreases n - i,
    {
        if n - i >= 4 && s[i] == '<' && s[i + 1] == '!' && s[i + 2] == '-' && s[i + 3] == '-' {
            let c = find_comment_close_exec(&s, i + 4);
            proof {
                lemma_find_comment_close(t, i + 4);
            }
            if c >= n {
                i = n;
            } else {
                i = c + 3;
            }
        } else if n - i >= 5 && s[i] == '<' && s[i + 1] == 'n' && s[i + 2] == 'o' && s[i + 3]
            == 't' && s[i + 4] == 'e' {
            let g = find_char_exec(&s, i + 5, '>');
            proof {
                lemma_find_char(t, i + 5, '>');
            }
            if g >= n {
                i = n;
            } else {
                i = g + 1;
            }
        } else {
            match footnote_end_exec(&s, i) {
                Some(e) => {
                    if (i == 0 || s[i - 1] == '\n') && e < n && s[e] == ':' {
                        proof {
                            lemma_find_char(t, e as int, '\n');
                        }
                        i = find_char_exec(&s, e, '\n');
                    } else {
                        i = e;
                    }
                },
                None => {
                    out.push(s[i]);
                    proof {
                        assert(out@ + strip_from(t, i + 1) =~= (out@.drop_last() + seq![t[i as int]])
                            + strip_from(t, i + 1));
                    }
                    i = i + 1;
                },
            }
        }
    }
    proof {
        assert(out@ + strip_from(t, n as int) =~= out@);
    }
    out
}

/// Removes HTML comments, inline notes and footnotes from a text, in one pass from left to
/// right. Nothing takes the place of a removed span; an opener that is never closed removes the
/// rest of the text.
pub fn filter_comments(text: &str) -> (r: String)
    ensures
        r@ == strip_markup(text@),
        r@.len() <= text@.len(),
{
    let s = chars_of(text);
    let out = strip_chars(&s);
    string_of(out.as_slice())
}

} // verus!
