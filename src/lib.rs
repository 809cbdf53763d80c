//! Extraction of a contiguous range of bytes or lines from a byte stream.
//!
//! A range is a pair of boundaries, each anchored either to the start or to
//! the end of the stream. The streaming engine resolves it with bounded
//! memory; the fast path resolves it against a known length.

pub mod boundary;
pub mod semantics;
pub mod engine;
pub mod parse;
pub mod fast_path;
pub mod laws;

pub use boundary::{SliceIdx, CountModeEnum};
pub use engine::{SliceStream, slice_stream_wrapper};
pub use fast_path::fast_path_extent;
pub use parse::{parse_range, RangeError};
