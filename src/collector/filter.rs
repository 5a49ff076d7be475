use vstd::prelude::*;
use crate::chars::chars_of;

verus! {

/// Whether `pattern` compiles as a case-insensitive regular expression.
pub uninterp spec fn regex_accepts(pattern: Seq<char>) -> bool;

/// Whether the case-insensitive regular expression `pattern` matches somewhere in `text`.
pub uninterp spec fn regex_finds(pattern: Seq<char>, text: Seq<char>) -> bool;

/// Relies on `regex::bytes::RegexBuilder::build` with `case_insensitive(true)`, whose success
/// depends on the pattern alone, and on `regex::bytes::Regex::is_match` over the text's UTF-8
/// bytes, whose answer depends on the pattern and the text alone.
#[verifier::external_body]
fn case_insensitive_match(pattern: &str, text: &str) -> (r: Option<bool>)
    ensures
        r is Some == regex_accepts(pattern@),
        r matches Some(b) ==> b == regex_finds(pattern@, text@),
{
    match regex::bytes::RegexBuilder::new(pattern).case_insensitive(true).build() {
        Ok(re) => Some(re.is_match(text.as_bytes())),
        Err(_) => None,
    }
}

/// An ASCII capital letter.
pub open spec fn is_upper(c: char) -> bool {
    'A' <= c && c <= 'Z'
}

/// Two characters that are equal once ASCII letters are lowered.
pub open spec fn same_ignoring_case(a: char, b: char) -> bool {
    ||| a == b
    ||| is_upper(a) && (a as u32) + 32 == b as u32
    ||| is_upper(b) && (b as u32) + 32 == a as u32
}

/// Whether `query` occurs in `text` at `i`, ASCII case ignored.
pub open spec fn occurs_at(text: Seq<char>, query: Seq<char>, i: int) -> bool {
    &&& 0 <= i
    &&& i + query.len() <= text.len()
    &&& forall|k: int| 0 <= k < query.len() ==> same_ignoring_case(#[trigger] text[i + k], query[k])
}

/// Whether `query` occurs in `text`, ASCII case ignored.
pub open spec fn contains_ignoring_case(text: Seq<char>, query: Seq<char>) -> bool {
    exists|i: int| #[trigger] occurs_at(text, query, i)
}

/// Whether a heading matches a query: as a case-insensitive regular expression when the query
/// compiles as one, else as a substring with ASCII case ignored.
pub open spec fn heading_matches(query: Seq<char>, heading: Seq<char>) -> bool {
    if regex_accepts(query) {
        regex_finds(query, heading)
    } else {
        contains_ignoring_case(heading, query)
    }
}

fn same_char_ignoring_case(a: char, b: char) -> (r: bool)
    ensures
        r == same_ignoring_case(a, b),
{
    a == b || ('A' <= a && a <= 'Z' && (a as u32) + 32 == b as u32) || ('A' <= b && b <= 'Z' && (
    b as u32) + 32 == a as u32)
}

fn occurs_at_exec(text: &Vec<char>, query: &Vec<char>, i: usize) -> (r: bool)
    requires
        i + query@.len() <= text@.len(),
    ensures
        r == occurs_at(text@, query@, i as int),
{
    let m = query.len();
    let tl = text.len();
    let mut k: usize = 0;
    while k < m
        invariant
            k <= m,
            m == query@.len(),
            i + m <= text@.len(),
            i + m <= usize::MAX,
            forall|j: int| 0 <= j < k ==> same_ignoring_case(#[trigger] text@[i + j], query@[j]),
        decreases m - k,
    {
        if !same_char_ignoring_case(text[i + k], query[k]) {
            assert(!same_ignoring_case(text@[i + k as int], query@[k as int]));
            return false;
        }
        k = k + 1;
    }
    true
}

/// Whether `query` occurs in `text`, ASCII case ignored.
pub fn contains_case_insensitive(text: &str, query: &str) -> (r: bool)
    ensures
        r == contains_ignoring_case(text@, query@),
{
    let t = chars_of(text);
    let q = chars_of(query);
    let n = t.len();
    let m = q.len();
    if m > n {
        proof {
            assert forall|i: int| !#[trigger] occurs_at(t@, q@, i) by {}
        }
        return false;
    }
    let mut i: usize = 0;
    while i <= n - m
        invariant
            i <= n - m + 1,
            m <= n,
            t@ == text@,
            q@ == query@,
            n == t@.len(),
            m == q@.len(),
            forall|j: int| 0 <= j < i ==> !#[trigger] occurs_at(t@, q@, j),
        decreases n - m + 1 - i,
    {
        if occurs_at_exec(&t, &q, i) {
            assert(occurs_at(t@, q@, i as int));
            return true;
        }
        i = i + 1;
    }
    proof {
        assert forall|j: int| !#[trigger] occurs_at(t@, q@, j) by {
            if 0 <= j < i {
            }
        }
    }
    false
}

/// Decides a heading match from the outcome of the regular expression: `Some(found)` when the
/// query compiled, `None` when it did not, in which case the query is sought as a substring
/// with ASCII case ignored.
pub fn decide_match(compiled: Option<bool>, query: &str, heading: &str) -> (r: bool)
    ensures
        compiled matches Some(b) ==> r == b,
        compiled is None ==> r == contains_ignoring_case(heading@, query@),
{
    match compiled {
        Some(b) => b,
        None => contains_case_insensitive(heading, query),
    }
}

/// A query on heading texts.
#[derive(Clone, Debug)]
pub struct HeadingFilter {
    query: String,
}

impl HeadingFilter {
    /// The query `filter`.
    pub fn new(filter: &str) -> (r: HeadingFilter)
        ensures
            r.query() == filter@,
    {
        HeadingFilter { query: filter.to_owned() }
    }

    /// The text of the query.
    pub closed spec fn query(&self) -> Seq<char> {
        self.query@
    }

    /// Whether `heading` matches the query.
    pub fn is_match(&self, heading: &str) -> (r: bool)
        ensures
            r == heading_matches(self.query(), heading@),
    {
        let q = self.query.as_str();
        let compiled = case_insensitive_match(q, heading);
        decide_match(compiled, q, heading)
    }
}

} // verus!
