//! The fixed ten-byte header that starts every frame.
//!
//! | bytes   | field            | coding              |
//! |---------|------------------|---------------------|
//! | `0`     | reserved         | not read            |
//! | `1..3`  | frame length     | two packed bytes    |
//! | `3`     | business type    | one packed byte     |
//! | `4`     | format code      | one packed byte     |
//! | `5`     | format version   | one packed byte     |
//! | `6..10` | sequence number  | four packed bytes   |

use crate::bcd::{
    bcd_value, digit_pair, lemma_bcd_value_bounds, lemma_bcd_value_push, parse, to_usize,
};
use crate::error::FeedError;
use vstd::arithmetic::power::{lemma_pow1, lemma_pow_adds, pow};
use vstd::prelude::*;
use vstd::slice::slice_subrange;

verus! {

/// How many bytes a header takes.
pub const HEADER_LEN: usize = 10;

/// The decoded header of one frame.
#[derive(Debug, Clone, Copy, PartialEq, Eq, Structural)]
pub struct Header {
    /// Length in bytes of the whole frame, header included.
    pub len: u16,
    /// Which line of business the frame belongs to.
    pub business_type: u8,
    /// Which body layout the frame has.
    pub format_code: u8,
    /// Which version of that layout.
    pub format_version: u8,
    /// Running number of the frame within its feed.
    pub number: u32,
}

impl Header {
    /// Whether the declared length leaves room for the header itself.
    pub open spec fn wf(self) -> bool {
        self.len >= HEADER_LEN
    }

    /// How many bytes of the frame follow the header.
    pub open spec fn body_len(self) -> int
        recommends
            self.wf(),
    {
        self.len - HEADER_LEN
    }
}

/// The frame length that the header bytes `s` declare.
pub open spec fn declared_len(s: Seq<u8>) -> int {
    bcd_value(s.subrange(1, 3))
}

/// The header that the first ten bytes of `s` spell.
pub open spec fn header_of(s: Seq<u8>) -> Header
    recommends
        s.len() >= HEADER_LEN,
{
    Header {
        len: declared_len(s) as u16,
        business_type: digit_pair(s[3]) as u8,
        format_code: digit_pair(s[4]) as u8,
        format_version: digit_pair(s[5]) as u8,
        number: bcd_value(s.subrange(6, 10)) as u32,
    }
}

/// Two packed bytes spell less than ten thousand, four less than a hundred
/// million.
pub proof fn lemma_header_fields_fit(s: Seq<u8>)
    requires
        s.len() >= HEADER_LEN,
    ensures
        0 <= declared_len(s) <= 9999,
        0 <= bcd_value(s.subrange(6, 10)) <= 99_999_999,
{
    lemma_bcd_value_bounds(s.subrange(1, 3));
    lemma_bcd_value_bounds(s.subrange(6, 10));
    lemma_pow1(100);
    lemma_pow_adds(100, 1, 1);
    lemma_pow_adds(100, 2, 2);
    let myriad = pow(100, 2);
    assert(myriad == 10_000);
    assert(pow(100, 4) == myriad * myriad);
    assert(myriad * myriad == 100_000_000) by (nonlinear_arith)
        requires
            myriad == 10_000,
    ;
}

/// The declared length is spelled by bytes one and two, and by no other
/// byte of the header.
pub proof fn lemma_len_reads_two_bytes(s: Seq<u8>)
    requires
        s.len() >= HEADER_LEN,
    ensures
        header_of(s).len == digit_pair(s[1]) * 100 + digit_pair(s[2]),
{
    let digits = s.subrange(1, 3);
    lemma_header_fields_fit(s);
    assert(digits =~= Seq::<u8>::empty().push(s[1]).push(s[2]));
    lemma_bcd_value_push(Seq::<u8>::empty(), s[1]);
    lemma_bcd_value_push(Seq::<u8>::empty().push(s[1]), s[2]);
}

/// Decodes the header at the start of `b`. Bytes past the tenth are not
/// read.
pub fn parse_header(b: &[u8]) -> (r: Result<Header, FeedError>)
    ensures
        b.len() < HEADER_LEN ==> r == Err::<Header, FeedError>(FeedError::TruncatedHeader),
        b.len() >= HEADER_LEN ==> r == Ok::<Header, FeedError>(header_of(b@)),
        b.len() >= HEADER_LEN ==> r->Ok_0.len == digit_pair(b@[1]) * 100 + digit_pair(b@[2]),
{
    if b.len() < HEADER_LEN {
        return Err(FeedError::TruncatedHeader);
    }
    proof {
        lemma_header_fields_fit(b@);
        lemma_len_reads_two_bytes(b@);
    }
    let len: u64 = to_usize(slice_subrange(b, 1, 3));
    let number: u64 = to_usize(slice_subrange(b, 6, 10));
    Ok(
        Header {
            len: len as u16,
            business_type: parse(b[3]),
            format_code: parse(b[4]),
            format_version: parse(b[5]),
            number: number as u32,
        },
    )
}

} // verus!
