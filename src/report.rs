use crate::error::WCError;
use crate::stats::{Tally, FileInfo, add_tally, zero_tally, fits_usize, lemma_add_tally_associative, lemma_add_tally_commutative};
use vstd::prelude::*;

verus! {

/// The outcome of counting one named stream; the name may be `-` for standard input.
#[derive(Debug)]
pub struct NamedOutcome {
    pub name: String,
    pub outcome: Result<FileInfo, WCError>,
}

/// The sum of the counts of the streams of `rows` that were counted; failed ones add nothing.
pub open spec fn total_of(rows: Seq<NamedOutcome>) -> Tally
    decreases rows.len(),
{
    if rows.len() == 0 {
        zero_tally()
    } else {
        match rows.last().outcome {
            Ok(info) => add_tally(total_of(rows.drop_last()), info@),
            Err(_) => total_of(rows.drop_last()),
        }
    }
}

/// Some stream of `rows` failed.
pub open spec fn any_failure(rows: Seq<NamedOutcome>) -> bool {
    exists|i: int| 0 <= i < rows.len() && rows[i].outcome is Err
}

/// Every field of `a` is at most that of `b`.
pub open spec fn tally_le(a: Tally, b: Tally) -> bool {
    &&& a.bytes <= b.bytes
    &&& a.chars <= b.chars
    &&& a.lines <= b.lines
    &&& a.words <= b.words
    &&& a.max_line_length <= b.max_line_length
}

/// The total of the first rows is no larger, field by field, than the total of all.
pub proof fn lemma_total_prefix_le(rows: Seq<NamedOutcome>, i: int)
    requires
        0 <= i <= rows.len(),
    ensures
        tally_le(total_of(rows.subrange(0, i)), total_of(rows)),
    decreases rows.len() - i,
{
    if i < rows.len() {
        lemma_total_prefix_le(rows, i + 1);
        assert(rows.subrange(0, i + 1).drop_last() =~= rows.subrange(0, i));
    } else {
        assert(rows.subrange(0, i) =~= rows);
    }
}

/// The total of two lists of outcomes, one after the other, is the sum of their totals.
pub proof fn lemma_total_concat(a: Seq<NamedOutcome>, b: Seq<NamedOutcome>)
    ensures
        total_of(a + b) == add_tally(total_of(a), total_of(b)),
    decreases b.len(),
{
    if b.len() == 0 {
        assert(a + b =~= a);
    } else {
        assert((a + b).drop_last() =~= a + b.drop_last());
        lemma_total_concat(a, b.drop_last());
        match b.last().outcome {
            Ok(info) => {
                lemma_add_tally_associative(total_of(a), total_of(b.drop_last()), info@);
            },
            Err(_) => {},
        }
    }
}

/// The total does not depend on the order of the streams: two lists counted one before
/// the other give the same sum and the same longest line either way round.
pub proof fn lemma_total_order_free(a: Seq<NamedOutcome>, b: Seq<NamedOutcome>)
    ensures
        total_of(a + b) == total_of(b + a),
{
    lemma_total_concat(a, b);
    lemma_total_concat(b, a);
    lemma_add_tally_commutative(total_of(a), total_of(b));
}

impl FileInfo {
    /// The sum of `self` and `other`, or `None` where a field would not fit in a `usize`.
    pub fn checked_sum(&self, other: &FileInfo) -> (r: Option<FileInfo>)
        ensures
            r is Some <==> fits_usize(add_tally(self@, other@)),
            r matches Some(s) ==> s@ == add_tally(self@, other@),
    {
        if self.bytes > usize::MAX - other.bytes || self.chars > usize::MAX - other.chars
            || self.lines > usize::MAX - other.lines || self.words > usize::MAX - other.words {
            return None;
        }
        let mut s = *self;
        s.absorb(other);
        Some(s)
    }
}

/// Sums the counts of the streams that were counted, skipping those that failed; `None`
/// where the sum does not fit in a `usize`.
pub fn total(rows: &Vec<NamedOutcome>) -> (r: Option<FileInfo>)
    ensures
        r is Some <==> fits_usize(total_of(rows@)),
        r matches Some(t) ==> t@ == total_of(rows@),
{
    let mut acc = FileInfo::new();
    let mut i: usize = 0;
    while i < rows.len()
        invariant
            i <= rows@.len(),
            acc@ == total_of(rows@.subrange(0, i as int)),
        decreases rows@.len() - i,
    {
        proof {
            assert(rows@.subrange(0, i + 1).drop_last() =~= rows@.subrange(0, i as int));
        }
        match &rows[i].outcome {
            Ok(info) => {
                match acc.checked_sum(info) {
                    Some(s) => {
                        acc = s;
                    },
                    None => {
                        proof {
                            lemma_total_prefix_le(rows@, i + 1);
                        }
                        return None;
                    },
                }
            },
            Err(_) => {},
        }
        i = i + 1;
    }
    proof {
        assert(rows@.subrange(0, i as int) =~= rows@);
    }
    Some(acc)
}

/// Whether any stream of `rows` failed; the invocation then reports failure.
pub fn any_failed(rows: &Vec<NamedOutcome>) -> (r: bool)
    ensures
        r == any_failure(rows@),
{
    let mut i: usize = 0;
    while i < rows.len()
        invariant
            i <= rows@.len(),
            forall|j: int| 0 <= j < i ==> rows@[j].outcome is Ok,
        decreases rows@.len() - i,
    {
        if rows[i].outcome.is_err() {
            return true;
        }
        i = i + 1;
    }
    false
}

/// Appends a row named `total` with the summed counts where there is more than one row;
/// `None` where that sum does not fit in a `usize`.
pub fn with_total(rows: Vec<NamedOutcome>) -> (r: Option<Vec<NamedOutcome>>)
    ensures
        r is None <==> rows@.len() > 1 && !fits_usize(total_of(rows@)),
        r matches Some(out) ==> {
            if rows@.len() > 1 {
                &&& out@.len() == rows@.len() + 1
                &&& out@.subrange(0, rows@.len() as int) == rows@
                &&& out@.last().name@ == "total"@
                &&& out@.last().outcome matches Ok(t) && t@ == total_of(rows@)
            } else {
                out@ == rows@
            }
        },
{
    if rows.len() <= 1 {
        return Some(rows);
    }
    let sum = match total(&rows) {
        Some(t) => t,
        None => return None,
    };
    let mut out = rows;
    let ghost before = out@;
    out.push(NamedOutcome { name: "total".to_owned(), outcome: Ok(sum) });
    proof {
        assert(out@.subrange(0, before.len() as int) =~= before);
    }
    Some(out)
}

} // verus!
