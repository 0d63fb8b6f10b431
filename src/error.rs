use vstd::prelude::*;

verus! {

/// Why a stream, or a list of names, could not be counted.
#[derive(Debug)]
pub enum WCError {
    /// The stream could not be opened or read; the text says why.
    Io(String),
    /// The chunk that starts at byte `chunk_start` of the stream is not well-formed UTF-8.
    Utf8 { chunk_start: usize },
}

} // verus!
