use crate::error::WCError;
use crate::scan::{chunks, first_chunk_len, lemma_first_chunk_len, lemma_chunks_append, next_chunk_end};
use crate::stats::{Tally, FileInfo, add_tally, zero_tally, fits_usize};
use crate::text::{LF, lemma_ascii_byte_not_decoded, chunk_tally, white_space, starts_word, tally_chunk, word_count, lemma_encode_len, lemma_word_count_le};
use vstd::prelude::*;
use vstd::slice::slice_subrange;
use vstd::utf8::*;

verus! {

/// The counts of a stream cut into `cs`: the sum of the chunks' counts, or the offset of the
/// first chunk that is not well-formed UTF-8.
pub open spec fn tally_chunks(cs: Seq<Seq<u8>>) -> Result<Tally, nat>
    decreases cs.len(),
{
    if cs.len() == 0 {
        Ok(zero_tally())
    } else if !valid_utf8(cs[0]) {
        Err(0)
    } else {
        match tally_chunks(cs.drop_first()) {
            Ok(t) => Ok(add_tally(chunk_tally(cs[0]), t)),
            Err(k) => Err(k + cs[0].len()),
        }
    }
}

/// What counting the stream `s` gives: its counts, or where its first undecodable line
/// starts.
pub open spec fn stream_outcome(s: Seq<u8>) -> Result<Tally, nat> {
    tally_chunks(chunks(s, LF))
}

/// `r` is the executable form of the outcome `m`.
pub open spec fn outcome_matches(r: Result<FileInfo, WCError>, m: Result<Tally, nat>) -> bool {
    match r {
        Ok(info) => m == Ok::<Tally, nat>(info@),
        Err(WCError::Utf8 { chunk_start }) => m == Err::<Tally, nat>(chunk_start as nat),
        Err(WCError::Io(_)) => false,
    }
}

/// The counts of a chunk are bounded by its length, and lines and words by its characters.
pub proof fn lemma_chunk_tally_bounds(chunk: Seq<u8>)
    requires
        valid_utf8(chunk),
    ensures
        chunk_tally(chunk).chars <= chunk_tally(chunk).bytes,
        chunk_tally(chunk).lines <= chunk_tally(chunk).chars,
        chunk_tally(chunk).words <= chunk_tally(chunk).chars,
        chunk_tally(chunk).max_line_length <= chunk_tally(chunk).chars,
        chunk_tally(chunk).bytes == chunk.len(),
{
    decode_utf8_encode_utf8(chunk);
    lemma_encode_len(decode_utf8(chunk));
    lemma_word_count_le(decode_utf8(chunk));
}

/// Well-formed running counts: characters within bytes, lines, words and the longest line
/// within characters.
pub open spec fn bounded(t: Tally) -> bool {
    &&& t.chars <= t.bytes
    &&& t.lines <= t.chars
    &&& t.words <= t.chars
    &&& t.max_line_length <= t.chars
}

impl FileInfo {
    /// Adds one chunk of a stream (a line, or the stream's unterminated end) to the counts.
    /// On bytes that are not well-formed UTF-8 the counts stay as they were and the error
    /// gives the offset at which the chunk starts.
    pub fn add_chunk(&mut self, chunk: &[u8]) -> (r: Result<(), WCError>)
        requires
            old(self).bytes + chunk@.len() <= usize::MAX,
            old(self).chars + chunk@.len() <= usize::MAX,
            old(self).lines + chunk@.len() <= usize::MAX,
            old(self).words + chunk@.len() <= usize::MAX,
        ensures
            valid_utf8(chunk@) ==> r is Ok && final(self)@ == add_tally(
                old(self)@,
                chunk_tally(chunk@),
            ),
            !valid_utf8(chunk@) ==> *final(self) == *old(self) && (r matches Err(
                WCError::Utf8 { chunk_start },
            ) && chunk_start == old(self).bytes),
    {
        match tally_chunk(chunk) {
            Some(piece) => {
                proof {
                    lemma_chunk_tally_bounds(chunk@);
                }
                self.absorb(&piece);
                Ok(())
            },
            None => Err(WCError::Utf8 { chunk_start: self.bytes }),
        }
    }
}

/// Counts the lines, words, characters and bytes of `data` and its longest line.
pub fn process_file(data: &[u8]) -> (r: Result<FileInfo, WCError>)
    ensures
        outcome_matches(r, stream_outcome(data@)),
{
    let mut info = FileInfo::new();
    let mut pos: usize = 0;
    proof {
        assert(data@.subrange(0, data@.len() as int) =~= data@);
    }
    while pos < data.len()
        invariant
            pos <= data@.len(),
            info.bytes == pos,
            bounded(info@),
            stream_outcome(data@) == match tally_chunks(
                chunks(data@.subrange(pos as int, data@.len() as int), LF),
            ) {
                Ok(t) => Ok(add_tally(info@, t)),
                Err(k) => Err::<Tally, nat>((pos + k) as nat),
            },
        decreases data@.len() - pos,
    {
        let end = next_chunk_end(data, pos, LF);
        let ghost rest = data@.subrange(pos as int, data@.len() as int);
        let ghost after = data@.subrange(end as int, data@.len() as int);
        proof {
            lemma_first_chunk_len(rest, LF);
        }
        let chunk = slice_subrange(data, pos, end);
        proof {
            assert(rest.subrange(end - pos, rest.len() as int) =~= after);
            assert(rest.subrange(0, end - pos) =~= chunk@);
            let cs = chunks(rest, LF);
            assert(cs.drop_first() =~= chunks(after, LF));
            if valid_utf8(chunk@) {
                lemma_chunk_tally_bounds(chunk@);
            }
        }
        match info.add_chunk(chunk) {
            Ok(()) => {},
            Err(e) => {
                return Err(e);
            },
        }
        pos = end;
    }
    proof {
        assert(data@.subrange(pos as int, data@.len() as int) =~= Seq::<u8>::empty());
    }
    Ok(info)
}

/// An empty stream counts to all zeros, without error.
pub proof fn lemma_empty_stream()
    ensures
        stream_outcome(Seq::<u8>::empty()) == Ok::<Tally, nat>(zero_tally()),
{
    assert(chunks(Seq::<u8>::empty(), LF) =~= Seq::<Seq<u8>>::empty());
}

/// A chunk that is one line feed: one byte, one character, one empty line, no word.
pub proof fn lemma_line_feed_chunk()
    ensures
        valid_utf8(seq![LF]),
        chunk_tally(seq![LF]) == (Tally { bytes: 1, chars: 1, lines: 1, words: 0, max_line_length: 0 }),
{
    let b = seq![LF];
    let lf: u8 = LF;
    assert((lf & 0x7f) as u32 == 10u32) by (bit_vector)
        requires
            lf == 10u8,
    ;
    assert(pop_first_scalar(b) =~= Seq::<u8>::empty());
    assert(valid_first_scalar(b));
    assert(valid_utf8(Seq::<u8>::empty()));
    assert(valid_utf8(b));
    let text = decode_utf8(b);
    assert(text =~= seq![(10u32) as char] + decode_utf8(Seq::<u8>::empty()));
    assert(text =~= seq![LF as char]);
    assert(text.drop_last() =~= Seq::<char>::empty());
    assert((LF as char) as u32 == 10);
    assert(white_space(text[0]));
    assert(!starts_word(text, 0));
    assert(word_count(text.drop_last()) == 0);
    assert(word_count(text) == 0);
}

/// A stream of `k` line feeds and nothing else has `k` lines, all empty.
pub proof fn lemma_line_feeds_only(k: nat)
    ensures
        stream_outcome(Seq::new(k, |i: int| LF)) == Ok::<Tally, nat>(
            Tally { bytes: k, chars: k, lines: k, words: 0, max_line_length: 0 },
        ),
    decreases k,
{
    let s = Seq::new(k, |i: int| LF);
    if k == 0 {
        lemma_empty_stream();
        assert(s =~= Seq::<u8>::empty());
    } else {
        lemma_line_feed_chunk();
        let rest = Seq::new((k - 1) as nat, |i: int| LF);
        lemma_line_feeds_only((k - 1) as nat);
        assert(first_chunk_len(s, LF) == 1);
        assert(s.subrange(0, 1) =~= seq![LF]);
        assert(s.subrange(1, s.len() as int) =~= rest);
        let cs = chunks(s, LF);
        assert(cs.drop_first() =~= chunks(rest, LF));
    }
}

/// One more well-formed chunk after chunks that counted without error adds its counts.
pub proof fn lemma_tally_chunks_push(cs: Seq<Seq<u8>>, t: Seq<u8>)
    requires
        tally_chunks(cs) is Ok,
        valid_utf8(t),
    ensures
        tally_chunks(cs.push(t)) == Ok::<Tally, nat>(
            add_tally(tally_chunks(cs)->Ok_0, chunk_tally(t)),
        ),
    decreases cs.len(),
{
    if cs.len() == 0 {
        assert(cs.push(t).drop_first() =~= Seq::<Seq<u8>>::empty());
    } else {
        assert(cs.push(t).drop_first() =~= cs.drop_first().push(t));
        lemma_tally_chunks_push(cs.drop_first(), t);
    }
}

/// A stream's unterminated end (bytes without a line feed after the last one) adds its
/// bytes, characters and words, but no line, and leaves the longest line as it was.
pub proof fn lemma_unterminated_end(s: Seq<u8>, t: Seq<u8>)
    requires
        s.len() == 0 || s.last() == LF,
        t.len() > 0,
        forall|j: int| 0 <= j < t.len() ==> t[j] != LF,
        valid_utf8(t),
        stream_outcome(s) is Ok,
    ensures
        ({
            let before = stream_outcome(s)->Ok_0;
            let after = stream_outcome(s + t);
            after == Ok::<Tally, nat>(
                Tally {
                    bytes: before.bytes + t.len(),
                    chars: before.chars + decode_utf8(t).len(),
                    words: before.words + word_count(decode_utf8(t)),
                    lines: before.lines,
                    max_line_length: before.max_line_length,
                },
            )
        }),
{
    lemma_chunks_append(s, t, LF);
    lemma_tally_chunks_push(chunks(s, LF), t);
    lemma_ascii_byte_not_decoded(t, LF);
    let text = decode_utf8(t);
    if text.len() > 0 {
        assert(text[text.len() - 1] != (LF as char));
    }
}

} // verus!
