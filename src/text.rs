use crate::stats::{Tally, FileInfo};
use vstd::prelude::*;
use vstd::utf8::*;
use vstd::string::StringSliceAdditionalSpecFns;

verus! {

/// The line delimiter of the counted streams.
pub const LF: u8 = 10;

/// Unicode's `White_Space` property.
pub open spec fn white_space(c: char) -> bool {
    let v = c as u32;
    ||| 0x09 <= v <= 0x0d
    ||| v == 0x20 || v == 0x85 || v == 0xa0 || v == 0x1680
    ||| 0x2000 <= v <= 0x200a
    ||| v == 0x2028 || v == 0x2029 || v == 0x202f || v == 0x205f || v == 0x3000
}

/// Whether `c` has Unicode's `White_Space` property.
pub fn is_white_space(c: char) -> (r: bool)
    ensures
        r == white_space(c),
{
    let v = c as u32;
    (0x09 <= v && v <= 0x0d) || v == 0x20 || v == 0x85 || v == 0xa0 || v == 0x1680 || (0x2000
        <= v && v <= 0x200a) || v == 0x2028 || v == 0x2029 || v == 0x202f || v == 0x205f || v
        == 0x3000
}

/// Position `i` of `text` holds the first character of a word: a character that is not
/// white space, at the start or right after white space.
pub open spec fn starts_word(text: Seq<char>, i: int) -> bool {
    !white_space(text[i]) && (i == 0 || white_space(text[i - 1]))
}

/// The number of words of `text`: maximal runs of characters that are not white space.
pub open spec fn word_count(text: Seq<char>) -> nat
    decreases text.len(),
{
    if text.len() == 0 {
        0
    } else {
        word_count(text.drop_last()) + if starts_word(text, text.len() - 1) {
            1nat
        } else {
            0nat
        }
    }
}

/// The counts of one chunk of a stream, given that its bytes are well-formed UTF-8.
/// A chunk that ends in a line feed is a line; its length leaves the line feed out.
/// A chunk without one (the end of a stream) adds no line and no line length.
pub open spec fn chunk_tally(chunk: Seq<u8>) -> Tally
    recommends
        valid_utf8(chunk),
{
    let text = decode_utf8(chunk);
    let n = text.len();
    let is_line = n > 0 && text[n - 1] == (LF as char);
    Tally {
        bytes: chunk.len(),
        chars: n,
        lines: if is_line { 1 } else { 0 },
        words: word_count(text),
        max_line_length: if is_line { (n - 1) as nat } else { 0 },
    }
}

/// Relies on `std::str::from_utf8`: it succeeds exactly on well-formed UTF-8, and the
/// string it returns is made of the given bytes.
#[verifier::external_body]
pub(crate) fn decode_str<'a>(bytes: &'a [u8]) -> (r: Option<&'a str>)
    ensures
        r is Some <==> valid_utf8(bytes@),
        r matches Some(s) ==> s.spec_bytes() == bytes@,
{
    std::str::from_utf8(bytes).ok()
}

/// An encoding has at least one byte per character.
pub proof fn lemma_encode_len(text: Seq<char>)
    ensures
        encode_utf8(text).len() >= text.len(),
    decreases text.len(),
{
    if text.len() > 0 {
        lemma_encode_len(text.drop_first());
    }
}

/// Words never outnumber characters.
pub proof fn lemma_word_count_le(text: Seq<char>)
    ensures
        word_count(text) <= text.len(),
    decreases text.len(),
{
    if text.len() > 0 {
        lemma_word_count_le(text.drop_last());
    }
}

/// Counts one chunk; `None` when its bytes are not well-formed UTF-8.
pub fn tally_chunk(chunk: &[u8]) -> (r: Option<FileInfo>)
    ensures
        r is Some <==> valid_utf8(chunk@),
        r matches Some(info) ==> info@ == chunk_tally(chunk@),
{
    let s = match decode_str(chunk) {
        Some(s) => s,
        None => return None,
    };
    proof {
        encode_utf8_decode_utf8(s@);
        lemma_encode_len(s@);
    }
    let ghost text = s@;
    let size = chunk.len();
    let mut n: usize = 0;
    let mut words: usize = 0;
    let mut after_space = true;
    let mut last_lf = false;
    for c in it: s.chars()
        invariant
            text == s@,
            text.len() <= size,
            it.seq() == text,
            n == it.index(),
            n <= text.len(),
            words == word_count(text.subrange(0, n as int)),
            words <= n,
            after_space == (n == 0 || white_space(text[n - 1])),
            last_lf == (n > 0 && text[n - 1] == (LF as char)),
    {
        proof {
            let next = text.subrange(0, n + 1);
            assert(next.drop_last() =~= text.subrange(0, n as int));
        }
        let ws = is_white_space(c);
        if !ws && after_space {
            words = words + 1;
        }
        n = n + 1;
        after_space = ws;
        last_lf = c == '\n';
    }
    proof {
        assert(text.subrange(0, n as int) =~= text);
    }
    let line_count: usize = if last_lf { 1 } else { 0 };
    let longest: usize = if last_lf { n - 1 } else { 0 };
    Some(FileInfo { bytes: size, chars: n, lines: line_count, words, max_line_length: longest })
}

/// Bytes that never hold a given ASCII byte decode to characters that never hold the
/// character it encodes.
pub proof fn lemma_ascii_byte_not_decoded(t: Seq<u8>, b: u8)
    requires
        b <= 0x7f,
        valid_utf8(t),
        forall|j: int| 0 <= j < t.len() ==> t[j] != b,
    ensures
        forall|j: int| 0 <= j < decode_utf8(t).len() ==> decode_utf8(t)[j] != (b as char),
    decreases t.len(),
{
    if t.len() > 0 {
        let w = length_of_first_scalar(t);
        let rest = pop_first_scalar(t);
        assert forall|j: int| 0 <= j < rest.len() implies rest[j] != b by {
            assert(rest[j] == t[j + w]);
        }
        lemma_ascii_byte_not_decoded(rest, b);
        let v = decode_first_scalar(t);
        decode_utf8_first_scalar(t);
        if (v as char) == (b as char) {
            let x: u32 = b as u32;
            assert(((x & 0x7f) as u8) == b) by (bit_vector)
                requires
                    x == b as u32,
                    b <= 0x7f,
            ;
            assert((v as char) as u32 == x);
            assert(encode_scalar(x) =~= seq![b]);
            assert(take_first_scalar(t)[0] == t[0]);
        }
        let text = decode_utf8(t);
        assert(text =~= seq![v as char] + decode_utf8(rest));
        assert forall|j: int| 0 <= j < text.len() implies text[j] != (b as char) by {
            if j > 0 {
                assert(text[j] == decode_utf8(rest)[j - 1]);
            }
        }
    }
}

} // verus!
