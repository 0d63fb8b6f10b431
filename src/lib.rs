//! Line, word, character, byte and longest-line counts over byte streams, in the manner
//! of the `wc` utility, with contracts checked by Verus.
//!
//! A stream is cut into chunks that each end with a delimiter byte ([`scan`]); each chunk
//! is decoded as UTF-8 and counted ([`text`], [`count`]); the counts of several streams are
//! summed into a total ([`report`]). Lists of names separated by NUL bytes are read by
//! [`names`], and [`select`] picks the counts that are shown.

pub mod stats;
pub mod text;
pub mod scan;
pub mod error;
pub mod count;
pub mod names;
pub mod report;
pub mod select;

pub use count::process_file;
pub use error::WCError;
pub use names::{process_files0_from, stdin_listed_twice};
pub use report::{NamedOutcome, any_failed, total, with_total};
pub use scan::{next_chunk_end, scan_chunks};
pub use select::{Selection, decimal_width};
pub use stats::FileInfo;
pub use text::{is_white_space, tally_chunk};
