use vstd::prelude::*;

verus! {

/// The counts of one stream, or a sum of several, as mathematical integers.
pub struct Tally {
    pub bytes: nat,
    pub chars: nat,
    pub lines: nat,
    pub words: nat,
    pub max_line_length: nat,
}

/// The tally of nothing at all.
pub open spec fn zero_tally() -> Tally {
    Tally { bytes: 0, chars: 0, lines: 0, words: 0, max_line_length: 0 }
}

/// Sum of two tallies: counters add, the longest line is the larger one.
pub open spec fn add_tally(a: Tally, b: Tally) -> Tally {
    Tally {
        bytes: a.bytes + b.bytes,
        chars: a.chars + b.chars,
        lines: a.lines + b.lines,
        words: a.words + b.words,
        max_line_length: if a.max_line_length >= b.max_line_length {
            a.max_line_length
        } else {
            b.max_line_length
        },
    }
}

/// Every field of the tally can be held in a `usize`.
pub open spec fn fits_usize(t: Tally) -> bool {
    &&& t.bytes <= usize::MAX
    &&& t.chars <= usize::MAX
    &&& t.lines <= usize::MAX
    &&& t.words <= usize::MAX
    &&& t.max_line_length <= usize::MAX
}

/// Counts gathered from one stream, or summed over several.
#[derive(Debug, Clone, Copy, PartialEq, Eq, Structural)]
pub struct FileInfo {
    pub bytes: usize,
    pub chars: usize,
    pub lines: usize,
    pub words: usize,
    pub max_line_length: usize,
}

impl View for FileInfo {
    type V = Tally;

    open spec fn view(&self) -> Tally {
        Tally {
            bytes: self.bytes as nat,
            chars: self.chars as nat,
            lines: self.lines as nat,
            words: self.words as nat,
            max_line_length: self.max_line_length as nat,
        }
    }
}

impl FileInfo {
    /// All counts zero.
    pub fn new() -> (r: FileInfo)
        ensures
            r@ == zero_tally(),
    {
        FileInfo { bytes: 0, chars: 0, lines: 0, words: 0, max_line_length: 0 }
    }

    /// Adds `other` into `self`: counters add, the longest line is the larger.
    pub fn absorb(&mut self, other: &FileInfo)
        requires
            fits_usize(add_tally(old(self)@, other@)),
        ensures
            final(self)@ == add_tally(old(self)@, other@),
    {
        self.bytes = self.bytes + other.bytes;
        self.chars = self.chars + other.chars;
        self.lines = self.lines + other.lines;
        self.words = self.words + other.words;
        if other.max_line_length > self.max_line_length {
            self.max_line_length = other.max_line_length;
        }
    }
}

/// Sum of tallies is commutative.
pub proof fn lemma_add_tally_commutative(a: Tally, b: Tally)
    ensures
        add_tally(a, b) == add_tally(b, a),
{
}

/// Sum of tallies is associative.
pub proof fn lemma_add_tally_associative(a: Tally, b: Tally, c: Tally)
    ensures
        add_tally(add_tally(a, b), c) == add_tally(a, add_tally(b, c)),
{
}

} // verus!
