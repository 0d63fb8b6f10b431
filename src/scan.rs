use vstd::prelude::*;
use vstd::slice::{slice_subrange, slice_to_vec};

verus! {

/// Length of the first chunk of `s`: up to and including the first `delim`, or all of `s`
/// where no `delim` occurs.
pub open spec fn first_chunk_len(s: Seq<u8>, delim: u8) -> nat
    decreases s.len(),
{
    if s.len() == 0 {
        0
    } else if s[0] == delim {
        1
    } else {
        1 + first_chunk_len(s.drop_first(), delim)
    }
}

/// The chunks of `s`: each runs up to and including one `delim`, but the last, which may
/// end without one.
pub open spec fn chunks(s: Seq<u8>, delim: u8) -> Seq<Seq<u8>>
    decreases s.len(),
{
    if s.len() == 0 {
        seq![]
    } else {
        proof {
            lemma_first_chunk_len(s, delim);
        }
        let n = first_chunk_len(s, delim) as int;
        seq![s.subrange(0, n)] + chunks(s.subrange(n, s.len() as int), delim)
    }
}

/// The first chunk is not empty, holds no `delim` but at its end, and either ends with
/// `delim` or takes all of `s`.
pub proof fn lemma_first_chunk_len(s: Seq<u8>, delim: u8)
    ensures
        s.len() > 0 ==> 1 <= first_chunk_len(s, delim),
        first_chunk_len(s, delim) <= s.len(),
        forall|j: int| 0 <= j < first_chunk_len(s, delim) - 1 ==> s[j] != delim,
        first_chunk_len(s, delim) == s.len() || s[first_chunk_len(s, delim) - 1] == delim,
    decreases s.len(),
{
    if s.len() > 0 && s[0] != delim {
        lemma_first_chunk_len(s.drop_first(), delim);
        assert forall|j: int| 0 <= j < first_chunk_len(s, delim) - 1 implies s[j] != delim by {
            if j > 0 {
                assert(s[j] == s.drop_first()[j - 1]);
            }
        }
    }
}

/// Where the first `k` bytes hold no `delim`, the first chunk ends at the `delim` at `k`,
/// or with `s` where `k` is its end.
pub proof fn lemma_first_chunk_len_at(s: Seq<u8>, delim: u8, k: int)
    requires
        0 <= k <= s.len(),
        forall|j: int| 0 <= j < k ==> s[j] != delim,
    ensures
        k < s.len() && s[k] == delim ==> first_chunk_len(s, delim) == k + 1,
        k == s.len() ==> first_chunk_len(s, delim) == k,
    decreases k,
{
    if k > 0 {
        assert forall|j: int| 0 <= j < k - 1 implies s.drop_first()[j] != delim by {
            assert(s.drop_first()[j] == s[j + 1]);
        }
        lemma_first_chunk_len_at(s.drop_first(), delim, k - 1);
    }
}

/// Concatenating the chunks of `s` gives `s` back: chunking loses and adds nothing.
pub proof fn lemma_chunks_lossless(s: Seq<u8>, delim: u8)
    ensures
        chunks(s, delim).flatten() == s,
    decreases s.len(),
{
    if s.len() > 0 {
        lemma_first_chunk_len(s, delim);
        let n = first_chunk_len(s, delim) as int;
        let rest = s.subrange(n, s.len() as int);
        lemma_chunks_lossless(rest, delim);
        let cs = chunks(s, delim);
        assert(cs.drop_first() =~= chunks(rest, delim));
        assert(s.subrange(0, n) + rest =~= s);
    }
}

/// The end of the chunk of `data` that starts at `start`: one past its `delim`, or the end of
/// `data`.
pub fn next_chunk_end(data: &[u8], start: usize, delim: u8) -> (end: usize)
    requires
        start <= data@.len(),
    ensures
        end == start + first_chunk_len(data@.subrange(start as int, data@.len() as int), delim),
{
    let ghost rest = data@.subrange(start as int, data@.len() as int);
    let mut i = start;
    while i < data.len() && data[i] != delim
        invariant
            start <= i <= data@.len(),
            rest == data@.subrange(start as int, data@.len() as int),
            forall|j: int| start <= j < i ==> data@[j] != delim,
        decreases data@.len() - i,
    {
        i = i + 1;
    }
    proof {
        assert forall|j: int| 0 <= j < i - start implies rest[j] != delim by {
            assert(rest[j] == data@[start + j]);
        }
        lemma_first_chunk_len_at(rest, delim, i - start);
    }
    if i < data.len() {
        i + 1
    } else {
        i
    }
}

/// Splits `data` into its chunks at `delim`.
pub fn scan_chunks(data: &[u8], delim: u8) -> (r: Vec<Vec<u8>>)
    ensures
        r.deep_view() == chunks(data@, delim),
{
    let mut out: Vec<Vec<u8>> = Vec::new();
    let mut pos: usize = 0;
    proof {
        assert(data@.subrange(0, data@.len() as int) =~= data@);
        assert(out.deep_view() + chunks(data@, delim) =~= chunks(data@, delim));
    }
    while pos < data.len()
        invariant
            pos <= data@.len(),
            chunks(data@, delim) == out.deep_view() + chunks(
                data@.subrange(pos as int, data@.len() as int),
                delim,
            ),
        decreases data@.len() - pos,
    {
        let end = next_chunk_end(data, pos, delim);
        let ghost rest = data@.subrange(pos as int, data@.len() as int);
        proof {
            lemma_first_chunk_len(rest, delim);
            assert(rest.subrange(end - pos, rest.len() as int) =~= data@.subrange(
                end as int,
                data@.len() as int,
            ));
            assert(rest.subrange(0, end - pos) =~= data@.subrange(pos as int, end as int));
        }
        let piece = slice_to_vec(slice_subrange(data, pos, end));
        let ghost before = out.deep_view();
        out.push(piece);
        proof {
            assert(piece.deep_view() =~= piece@);
            assert(out.deep_view() =~= before.push(piece@));
            assert(chunks(data@, delim) =~= out.deep_view() + chunks(
                data@.subrange(end as int, data@.len() as int),
                delim,
            ));
        }
        pos = end;
    }
    proof {
        assert(out.deep_view() + chunks(data@.subrange(pos as int, data@.len() as int), delim)
            =~= out.deep_view());
    }
    out
}

/// Bytes appended after a `delim` leave the first chunk as it was.
pub proof fn lemma_first_chunk_len_prefix(s: Seq<u8>, t: Seq<u8>, delim: u8)
    requires
        s.len() > 0,
        s.last() == delim,
    ensures
        first_chunk_len(s + t, delim) == first_chunk_len(s, delim),
    decreases s.len(),
{
    if s[0] != delim {
        assert((s + t).drop_first() =~= s.drop_first() + t);
        lemma_first_chunk_len_prefix(s.drop_first(), t, delim);
    }
}

/// Appending bytes without `delim` to a stream that is empty or ends in `delim` adds them
/// as one more chunk.
pub proof fn lemma_chunks_append(s: Seq<u8>, t: Seq<u8>, delim: u8)
    requires
        s.len() == 0 || s.last() == delim,
        t.len() > 0,
        forall|j: int| 0 <= j < t.len() ==> t[j] != delim,
    ensures
        chunks(s + t, delim) == chunks(s, delim).push(t),
    decreases s.len(),
{
    if s.len() == 0 {
        assert(s + t =~= t);
        lemma_first_chunk_len_at(t, delim, t.len() as int);
        assert(t.subrange(0, t.len() as int) =~= t);
        assert(t.subrange(t.len() as int, t.len() as int) =~= Seq::<u8>::empty());
        assert(chunks(Seq::<u8>::empty(), delim) =~= Seq::<Seq<u8>>::empty());
        assert(chunks(t, delim) =~= seq![t]);
        assert(chunks(s, delim) =~= Seq::<Seq<u8>>::empty());
    } else {
        lemma_first_chunk_len(s, delim);
        lemma_first_chunk_len_prefix(s, t, delim);
        let n = first_chunk_len(s, delim) as int;
        let rest = s.subrange(n, s.len() as int);
        assert((s + t).subrange(0, n) =~= s.subrange(0, n));
        assert((s + t).subrange(n, (s + t).len() as int) =~= rest + t);
        if rest.len() > 0 {
            assert(rest.last() == s.last());
        }
        lemma_chunks_append(rest, t, delim);
        assert(chunks(s + t, delim) =~= chunks(s, delim).push(t));
    }
}

/// Every chunk is non-empty and holds `delim` at most at its end; every chunk but the
/// last ends with `delim`.
pub proof fn lemma_chunks_shape(s: Seq<u8>, delim: u8)
    ensures
        forall|i: int| 0 <= i < chunks(s, delim).len() ==> #[trigger] chunks(s, delim)[i].len() > 0,
        forall|i: int, j: int|
            0 <= i < chunks(s, delim).len() && 0 <= j < chunks(s, delim)[i].len() - 1
                ==> #[trigger] chunks(s, delim)[i][j] != delim,
        forall|i: int|
            0 <= i < chunks(s, delim).len() - 1 ==> #[trigger] chunks(s, delim)[i].last()
                == delim,
    decreases s.len(),
{
    if s.len() > 0 {
        lemma_first_chunk_len(s, delim);
        let n = first_chunk_len(s, delim) as int;
        let rest = s.subrange(n, s.len() as int);
        lemma_chunks_shape(rest, delim);
        let cs = chunks(s, delim);
        let rs = chunks(rest, delim);
        assert(cs.drop_first() =~= rs);
        assert forall|i: int| 0 < i < cs.len() implies cs[i] == rs[i - 1] by {
            assert(cs[i] == cs.drop_first()[i - 1]);
        }
        if rs.len() > 0 {
            lemma_first_chunk_len(rest, delim);
            assert(n < s.len());
        }
    }
}

} // verus!
