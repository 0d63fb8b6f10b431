use crate::error::WCError;
use crate::scan::{chunks, lemma_chunks_lossless, lemma_chunks_shape, lemma_first_chunk_len, next_chunk_end};
use crate::text::{decode_str, lemma_ascii_byte_not_decoded};
use vstd::prelude::*;
use vstd::slice::slice_subrange;
use vstd::string::*;
use vstd::utf8::*;

verus! {

/// The delimiter of a list of names.
pub const NUL: u8 = 0;

/// The bytes of the name that a chunk holds: the chunk without its closing NUL.
pub open spec fn name_bytes(chunk: Seq<u8>) -> Seq<u8> {
    if chunk.len() > 0 && chunk.last() == NUL {
        chunk.drop_last()
    } else {
        chunk
    }
}

/// The names held by the chunks `cs`, or the offset of the first chunk whose name is not
/// well-formed UTF-8.
pub open spec fn decode_names(cs: Seq<Seq<u8>>) -> Result<Seq<Seq<char>>, nat>
    decreases cs.len(),
{
    if cs.len() == 0 {
        Ok(seq![])
    } else if !valid_utf8(name_bytes(cs[0])) {
        Err(0)
    } else {
        match decode_names(cs.drop_first()) {
            Ok(ns) => Ok(seq![decode_utf8(name_bytes(cs[0]))] + ns),
            Err(k) => Err(k + cs[0].len()),
        }
    }
}

/// The names listed, NUL after NUL, in `s`.
pub open spec fn listed_names(s: Seq<u8>) -> Result<Seq<Seq<char>>, nat> {
    decode_names(chunks(s, NUL))
}

/// `r` is the executable form of the list of names, or of the error, `m`.
pub open spec fn names_match(r: Result<Vec<String>, WCError>, m: Result<Seq<Seq<char>>, nat>) -> bool {
    match r {
        Ok(v) => m == Ok::<Seq<Seq<char>>, nat>(v.deep_view()),
        Err(WCError::Utf8 { chunk_start }) => m == Err::<Seq<Seq<char>>, nat>(chunk_start as nat),
        Err(WCError::Io(_)) => false,
    }
}

/// Reads the names of a list whose names each end in a NUL (the last may lack it).
/// A name that is not well-formed UTF-8 fails the whole list.
pub fn process_files0_from(data: &[u8]) -> (r: Result<Vec<String>, WCError>)
    ensures
        names_match(r, listed_names(data@)),
{
    let mut out: Vec<String> = Vec::new();
    let mut pos: usize = 0;
    proof {
        assert(data@.subrange(0, data@.len() as int) =~= data@);
        assert(out.deep_view() =~= Seq::<Seq<char>>::empty());
    }
    while pos < data.len()
        invariant
            pos <= data@.len(),
            listed_names(data@) == match decode_names(
                chunks(data@.subrange(pos as int, data@.len() as int), NUL),
            ) {
                Ok(ns) => Ok(out.deep_view() + ns),
                Err(k) => Err::<Seq<Seq<char>>, nat>((pos + k) as nat),
            },
        decreases data@.len() - pos,
    {
        let end = next_chunk_end(data, pos, NUL);
        let ghost rest = data@.subrange(pos as int, data@.len() as int);
        let ghost after = data@.subrange(end as int, data@.len() as int);
        proof {
            lemma_first_chunk_len(rest, NUL);
        }
        let name_end = if data[end - 1] == NUL {
            end - 1
        } else {
            end
        };
        let name = slice_subrange(data, pos, name_end);
        proof {
            assert(rest.subrange(end - pos, rest.len() as int) =~= after);
            let chunk = rest.subrange(0, end - pos);
            assert(name_bytes(chunk) =~= name@);
            let cs = chunks(rest, NUL);
            assert(cs.drop_first() =~= chunks(after, NUL));
        }
        let text = match decode_str(name) {
            Some(text) => text,
            None => {
                return Err(WCError::Utf8 { chunk_start: pos });
            },
        };
        proof {
            encode_utf8_decode_utf8(text@);
        }
        let owned = text.to_owned();
        let ghost before = out.deep_view();
        out.push(owned);
        proof {
            assert(out.deep_view() =~= before.push(owned@));
            assert(listed_names(data@) == match decode_names(chunks(after, NUL)) {
                Ok(ns) => Ok(out.deep_view() + ns),
                Err(k) => Err::<Seq<Seq<char>>, nat>((end + k) as nat),
            }) by {
                match decode_names(chunks(after, NUL)) {
                    Ok(ns) => {
                        assert(before + (seq![owned@] + ns) =~= out.deep_view() + ns);
                    },
                    Err(k) => {},
                }
            }
        }
        pos = end;
    }
    proof {
        assert(data@.subrange(pos as int, data@.len() as int) =~= Seq::<u8>::empty());
        assert(out.deep_view() + Seq::<Seq<char>>::empty() =~= out.deep_view());
    }
    Ok(out)
}

/// The name `-`, which stands for standard input.
pub open spec fn is_stdin_name(name: Seq<char>) -> bool {
    name == seq!['-']
}

/// Whether `name` is `-`, standard input.
pub fn names_stdin(name: &str) -> (r: bool)
    ensures
        r == is_stdin_name(name@),
{
    if name.unicode_len() != 1 {
        return false;
    }
    let c = name.get_char(0);
    proof {
        if c == '-' {
            assert(name@ =~= seq!['-']);
        }
    }
    c == '-'
}

/// Whether a list of names read from standard input (`list_source` is `-`) itself names
/// standard input, which cannot be read twice.
pub fn stdin_listed_twice(list_source: &str, names: &Vec<String>) -> (r: bool)
    ensures
        r == (is_stdin_name(list_source@) && exists|i: int|
            0 <= i < names@.len() && is_stdin_name(#[trigger] names@[i]@)),
{
    if !names_stdin(list_source) {
        return false;
    }
    let mut i: usize = 0;
    while i < names.len()
        invariant
            i <= names@.len(),
            is_stdin_name(list_source@),
            forall|j: int| 0 <= j < i ==> !is_stdin_name(#[trigger] names@[j]@),
        decreases names@.len() - i,
    {
        if names_stdin(names[i].as_str()) {
            assert(is_stdin_name(names@[i as int]@));
            return true;
        }
        i = i + 1;
    }
    false
}

/// A list that decodes has one name per chunk, each the decoding of its chunk without the
/// closing NUL.
pub proof fn lemma_decode_names(cs: Seq<Seq<u8>>)
    requires
        decode_names(cs) is Ok,
    ensures
        decode_names(cs)->Ok_0.len() == cs.len(),
        forall|i: int|
            0 <= i < cs.len() ==> valid_utf8(name_bytes(cs[i])) && decode_names(cs)->Ok_0[i]
                == decode_utf8(name_bytes(#[trigger] cs[i])),
    decreases cs.len(),
{
    if cs.len() > 0 {
        let rest = cs.drop_first();
        lemma_decode_names(rest);
        let ns = decode_names(cs)->Ok_0;
        assert forall|i: int| 0 < i < cs.len() implies valid_utf8(name_bytes(cs[i])) && ns[i]
            == decode_utf8(name_bytes(#[trigger] cs[i])) by {
            assert(cs[i] == rest[i - 1]);
        }
    }
}

/// Reading a list of names loses nothing: there is one name per chunk; the UTF-8 bytes of
/// each name are its chunk without the closing NUL; no name holds a NUL; every chunk but the
/// last ends with a NUL; and the chunks put back together give the bytes that were read.
pub proof fn lemma_listed_names_lossless(s: Seq<u8>)
    requires
        listed_names(s) is Ok,
    ensures
        ({
            let cs = chunks(s, NUL);
            let ns = listed_names(s)->Ok_0;
            &&& cs.flatten() == s
            &&& ns.len() == cs.len()
            &&& forall|i: int| 0 <= i < cs.len() ==> encode_utf8(#[trigger] ns[i]) == name_bytes(cs[i])
            &&& forall|i: int| 0 <= i < cs.len() - 1 ==> #[trigger] cs[i] == name_bytes(cs[i]).push(NUL)
            &&& forall|i: int, j: int|
                0 <= i < ns.len() && 0 <= j < ns[i].len() ==> #[trigger] ns[i][j] != (NUL as char)
        }),
{
    let cs = chunks(s, NUL);
    let ns = listed_names(s)->Ok_0;
    lemma_chunks_lossless(s, NUL);
    lemma_chunks_shape(s, NUL);
    lemma_decode_names(cs);
    assert forall|i: int| 0 <= i < cs.len() implies encode_utf8(#[trigger] ns[i]) == name_bytes(cs[i]) by {
        decode_utf8_encode_utf8(name_bytes(cs[i]));
    }
    assert forall|i: int| 0 <= i < cs.len() - 1 implies #[trigger] cs[i] == name_bytes(cs[i]).push(NUL) by {
        assert(cs[i].len() > 0);
        assert(cs[i].last() == NUL);
        assert(cs[i].drop_last().push(NUL) =~= cs[i]);
    }
    assert forall|i: int, j: int| 0 <= i < ns.len() && 0 <= j < ns[i].len() implies #[trigger] ns[i][j] != (NUL as char) by {
        let c = cs[i];
        let nb = name_bytes(c);
        assert(c.len() > 0);
        assert forall|k: int| 0 <= k < nb.len() implies nb[k] != NUL by {
            if k < c.len() - 1 {
                assert(nb[k] == c[k]);
            }
        }
        lemma_ascii_byte_not_decoded(nb, NUL);
    }
}

} // verus!
