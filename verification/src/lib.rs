//! Decoder for a packed binary market-data feed.
//!
//! A feed is a flat buffer of frames laid end to end. Every frame starts with
//! a ten-byte header that declares the frame's own length; the body of a
//! quote frame holds a ticker code, a clock time and the best bid and ask.
//! Numbers are packed binary-coded decimal: every byte holds two decimal
//! digits.
//!
//! - [`bcd`] decodes digits, whole numbers and fixed-point numbers.
//! - [`header`] decodes the frame header.
//! - [`quote`] decodes the body of a quote frame.
//! - [`feed`] walks a buffer frame by frame and collects the quotes.
//!
//! Nothing here reads files or prints: the caller hands in bytes and gets
//! values back. A digit above nine is read as nine wherever it occurs, so
//! the only errors are those of length, listed in [`error`].

pub mod bcd;
pub mod error;
pub mod feed;
pub mod header;
pub mod quote;
