use crate::stats::FileInfo;
use vstd::prelude::*;

verus! {

/// Which counts are shown, always in the order lines, words, characters, bytes, longest
/// line.
#[derive(Debug, Clone, Copy, PartialEq, Eq, Structural)]
pub struct Selection {
    pub lines: bool,
    pub words: bool,
    pub bytes: bool,
    pub chars: bool,
    pub max_line_length: bool,
}

impl Selection {
    /// No count is chosen.
    pub open spec fn none_chosen(self) -> bool {
        !self.lines && !self.words && !self.bytes && !self.chars && !self.max_line_length
    }

    /// The selection itself, or lines, words and bytes where nothing was chosen.
    pub fn or_default(self) -> (r: Selection)
        ensures
            self.none_chosen() ==> r == (Selection {
                lines: true,
                words: true,
                bytes: true,
                chars: false,
                max_line_length: false,
            }),
            !self.none_chosen() ==> r == self,
    {
        if !self.lines && !self.words && !self.bytes && !self.chars && !self.max_line_length {
            Selection { lines: true, words: true, bytes: true, chars: false, max_line_length: false }
        } else {
            self
        }
    }

    /// The counts of `info` that the selection shows, in display order.
    pub fn columns(&self, info: &FileInfo) -> (r: Vec<usize>)
        ensures
            r@ == column_values(*self, *info),
    {
        let mut v: Vec<usize> = Vec::new();
        if self.lines {
            v.push(info.lines);
        }
        if self.words {
            v.push(info.words);
        }
        if self.chars {
            v.push(info.chars);
        }
        if self.bytes {
            v.push(info.bytes);
        }
        if self.max_line_length {
            v.push(info.max_line_length);
        }
        proof {
            assert(v@ =~= column_values(*self, *info));
        }
        v
    }
}

/// The values shown for `info` under `sel`, in display order.
pub open spec fn column_values(sel: Selection, info: FileInfo) -> Seq<usize> {
    (if sel.lines { seq![info.lines] } else { seq![] }) + (if sel.words {
        seq![info.words]
    } else {
        seq![]
    }) + (if sel.chars { seq![info.chars] } else { seq![] }) + (if sel.bytes {
        seq![info.bytes]
    } else {
        seq![]
    }) + (if sel.max_line_length { seq![info.max_line_length] } else { seq![] })
}

/// The number of decimal digits of `n`.
pub open spec fn num_digits(n: nat) -> nat
    decreases n,
{
    if n < 10 {
        1
    } else {
        1 + num_digits(n / 10)
    }
}

/// A positive number has no more digits than its value.
pub proof fn lemma_num_digits_le(n: nat)
    requires
        n >= 1,
    ensures
        num_digits(n) <= n,
    decreases n,
{
    if n >= 10 {
        lemma_num_digits_le(n / 10);
    }
}

/// The number of decimal digits of `n`: the width of the columns, taken from the largest
/// count shown.
pub fn decimal_width(n: usize) -> (r: usize)
    ensures
        r == num_digits(n as nat),
{
    let mut m = n;
    let mut w: usize = 1;
    while m >= 10
        invariant
            1 <= w,
            m <= n,
            w + num_digits(m as nat) == 1 + num_digits(n as nat),
        decreases m,
    {
        proof {
            lemma_num_digits_le(n as nat);
            assert(num_digits((m / 10) as nat) >= 1);
            assert(num_digits(m as nat) >= 2);
        }
        m = m / 10;
        w = w + 1;
    }
    w
}

} // verus!
