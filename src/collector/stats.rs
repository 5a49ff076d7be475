use vstd::prelude::*;

verus! {

/// Paragraph statistics of one section, or of a whole tree after roll-up.
#[derive(Clone, Copy, Debug, Default, PartialEq, Eq, Structural)]
pub struct Stats {
    pub word_count: u32,
    pub paragraph_count: u32,
    pub longest_paragraph: u32,
}

/// The larger of two integers.
pub open spec fn max_int(a: int, b: int) -> int {
    if a >= b {
        a
    } else {
        b
    }
}

/// The statistics that hold no paragraph at all.
pub open spec fn zero_stats() -> Stats {
    Stats { word_count: 0, paragraph_count: 0, longest_paragraph: 0 }
}

/// Whether two statistics can be combined without overflowing a counter.
pub open spec fn can_combine(a: Stats, b: Stats) -> bool {
    &&& a.word_count + b.word_count <= u32::MAX
    &&& a.paragraph_count + b.paragraph_count <= u32::MAX
}

/// The combination of two statistics: counts add up, the longest paragraph is the larger one.
pub open spec fn combine(a: Stats, b: Stats) -> Stats
    recommends
        can_combine(a, b),
{
    Stats {
        word_count: (a.word_count + b.word_count) as u32,
        paragraph_count: (a.paragraph_count + b.paragraph_count) as u32,
        longest_paragraph: max_int(a.longest_paragraph as int, b.longest_paragraph as int) as u32,
    }
}

/// The statistics after one more paragraph of `count` words.
pub open spec fn pushed(s: Stats, count: u32) -> Stats {
    combine(s, Stats { word_count: count, paragraph_count: 1, longest_paragraph: count })
}

/// Whether one more paragraph of `count` words fits in the counters.
pub open spec fn can_push(s: Stats, count: u32) -> bool {
    s.word_count + count <= u32::MAX && s.paragraph_count + 1 <= u32::MAX
}

/// The combination of statistics does not depend on the order of its operands.
pub proof fn lemma_combine_commutative(a: Stats, b: Stats)
    ensures
        combine(a, b) == combine(b, a),
{
}

/// The combination of statistics is associative, so that any grouping of a roll-up gives the
/// same result.
pub proof fn lemma_combine_associative(a: Stats, b: Stats, c: Stats)
    requires
        can_combine(a, b),
        can_combine(combine(a, b), c),
    ensures
        combine(combine(a, b), c) == combine(a, combine(b, c)),
{
}

/// The statistics of no paragraph are neutral for the combination.
pub proof fn lemma_combine_zero(a: Stats)
    ensures
        combine(a, zero_stats()) == a,
        combine(zero_stats(), a) == a,
{
}

impl Stats {
    /// Statistics of no paragraph.
    pub fn new() -> (r: Stats)
        ensures
            r == zero_stats(),
    {
        Stats { word_count: 0, paragraph_count: 0, longest_paragraph: 0 }
    }

    /// Records one more paragraph of `count` words.
    pub fn push(&mut self, count: u32)
        requires
            can_push(*old(self), count),
        ensures
            *final(self) == pushed(*old(self), count),
    {
        self.word_count = self.word_count + count;
        self.paragraph_count = self.paragraph_count + 1;
        if count > self.longest_paragraph {
            self.longest_paragraph = count;
        }
    }

    /// The mean paragraph length in words, rounded down; 0 when there is no paragraph.
    pub fn average_paragraph(&self) -> (r: u32)
        ensures
            self.paragraph_count == 0 ==> r == 0,
            self.paragraph_count != 0 ==> r == self.word_count / self.paragraph_count,
    {
        if self.paragraph_count == 0 {
            0
        } else {
            self.word_count / self.paragraph_count
        }
    }

    /// Whether no word was counted.
    pub fn is_empty(&self) -> (r: bool)
        ensures
            r == (self.word_count == 0),
    {
        self.word_count == 0
    }

    /// Combines two statistics: counts add up, the longest paragraph is the larger one.
    pub fn combine(&self, other: &Stats) -> (r: Stats)
        requires
            can_combine(*self, *other),
        ensures
            r == combine(*self, *other),
    {
        Stats {
            word_count: self.word_count + other.word_count,
            paragraph_count: self.paragraph_count + other.paragraph_count,
            longest_paragraph: if self.longest_paragraph >= other.longest_paragraph {
                self.longest_paragraph
            } else {
                other.longest_paragraph
            },
        }
    }
}

} // verus!
