//! The ways in which a buffer can fall short of the layout it declares.

use vstd::prelude::*;

verus! {

/// Why a decode stopped.
#[derive(Debug, Clone, Copy, PartialEq, Eq, Structural)]
pub enum FeedError {
    /// Fewer than ten bytes are left where a frame header should start.
    TruncatedHeader,
    /// A header declares a frame that is shorter than a header, or longer
    /// than what is left of the buffer.
    TruncatedFrame,
    /// A frame ends before a field that its own layout calls for.
    TruncatedBody,
}

} // verus!
