//! Utility routines for a music-player front end: human-readable byte sizes,
//! `minutes:seconds` clocks, case-insensitive song search, and fail-soft
//! base64 decoding.
use vstd::prelude::*;

pub mod b64;
pub mod bytes;
pub mod digits;
pub mod search;
pub mod time;

pub use crate::b64::base64_to_array_buffer;
pub use crate::bytes::format_bytes;
pub use crate::search::{search_songs, Song};
pub use crate::time::format_time;

verus! {

/// Sum of two machine-word counters.
pub fn add(left: usize, right: usize) -> (r: usize)
    requires
        left + right <= usize::MAX,
    ensures
        r == left + right,
{
    left + right
}

} // verus!
