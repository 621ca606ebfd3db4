//! A feed: frames laid end to end in one buffer.
//!
//! Each frame says in its own header how long it is, so the frames can only
//! be found one after the other, from the start of the buffer.

use crate::error::FeedError;
use crate::header::{declared_len, header_of, lemma_header_fields_fit, parse_header, HEADER_LEN};
use crate::quote::{body_of, lemma_body_is_well_formed, parse_6_6_body, Data, DataView};
use vstd::prelude::*;
use vstd::slice::slice_subrange;

verus! {

/// The length of the frame that starts at `at`, as its header declares it.
///
/// The header must lie within the buffer, and the frame must be at least a
/// header long and must end within the buffer.
pub open spec fn frame_len_at(buf: Seq<u8>, at: int) -> Result<int, FeedError> {
    if buf.len() - at < HEADER_LEN {
        Err(FeedError::TruncatedHeader)
    } else {
        let n = declared_len(buf.subrange(at, at + HEADER_LEN));
        if n < HEADER_LEN || n > buf.len() - at {
            Err(FeedError::TruncatedFrame)
        } else {
            Ok(n)
        }
    }
}

/// The bytes of the frame that starts at `at`.
pub open spec fn frame_at(buf: Seq<u8>, at: int) -> Result<Seq<u8>, FeedError> {
    match frame_len_at(buf, at) {
        Ok(n) => Ok(buf.subrange(at, at + n)),
        Err(e) => Err(e),
    }
}

/// A frame that can be cut is as long as its own header declares, which is
/// at least the length of a header.
pub proof fn lemma_frame_is_as_declared(buf: Seq<u8>, at: int)
    requires
        0 <= at,
        frame_at(buf, at) is Ok,
    ensures
        header_of(frame_at(buf, at)->Ok_0).wf(),
        header_of(frame_at(buf, at)->Ok_0).len == frame_at(buf, at)->Ok_0.len(),
        header_of(frame_at(buf, at)->Ok_0).body_len() == frame_at(buf, at)->Ok_0.len()
            - HEADER_LEN,
{
    let frame = frame_at(buf, at)->Ok_0;
    let head = buf.subrange(at, at + HEADER_LEN);
    assert(frame.subrange(1, 3) =~= head.subrange(1, 3));
    lemma_header_fields_fit(head);
}

/// A cut frame, taken by its bytes.
pub open spec fn frame_view(r: Result<&[u8], FeedError>) -> Result<Seq<u8>, FeedError> {
    match r {
        Ok(frame) => Ok(frame@),
        Err(e) => Err(e),
    }
}

/// Cuts the frame that starts at `at` out of the buffer.
pub fn cut_frame<'a>(buffer: &'a [u8], at: usize) -> (r: Result<&'a [u8], FeedError>)
    ensures
        frame_view(r) == frame_at(buffer@, at as int),
        r is Ok ==> header_of(r->Ok_0@).wf() && header_of(r->Ok_0@).len == r->Ok_0.len(),
        r is Err ==> r->Err_0 != FeedError::TruncatedBody,
{
    proof {
        if frame_at(buffer@, at as int) is Ok {
            lemma_frame_is_as_declared(buffer@, at as int);
        }
    }
    if at > buffer.len() || buffer.len() - at < HEADER_LEN {
        return Err(FeedError::TruncatedHeader);
    }
    let head = slice_subrange(buffer, at, at + HEADER_LEN);
    let len: usize = match parse_header(head) {
        Ok(header) => header.len as usize,
        Err(e) => {
            return Err(e);
        },
    };
    proof {
        lemma_header_fields_fit(head@);
    }
    if len < HEADER_LEN || len > buffer.len() - at {
        return Err(FeedError::TruncatedFrame);
    }
    Ok(slice_subrange(buffer, at, at + len))
}

/// What the scan of a buffer gives.
#[derive(Debug, PartialEq, Eq)]
pub struct Scan {
    /// The quotes of the frames that were passed, in buffer order.
    pub records: Vec<Data>,
    /// Where the scan stopped: the length of the buffer, or the start of the
    /// frame that could not be cut.
    pub consumed: usize,
    /// Why the scan stopped before the end of the buffer, if it did.
    pub error: Option<FeedError>,
}

/// The result of a scan as plain mathematical values.
pub struct ScanView {
    pub records: Seq<DataView>,
    pub consumed: int,
    pub error: Option<FeedError>,
}

impl View for Scan {
    type V = ScanView;

    open spec fn view(&self) -> ScanView {
        ScanView {
            records: self.records@.map_values(|d: Data| d@),
            consumed: self.consumed as int,
            error: self.error,
        }
    }
}

/// The quotes that one frame adds to the output: its quote, or nothing where
/// the frame carries none or is cut short within its body.
pub open spec fn quotes_of(frame: Seq<u8>) -> Seq<DataView> {
    match body_of(frame) {
        Ok(Some(d)) => seq![d],
        _ => Seq::empty(),
    }
}

/// The scan of `buf` from the frame boundary `at` onwards.
///
/// Frame follows frame until the buffer ends or a frame cannot be cut; in
/// the latter case the scan stops at the start of that frame and keeps the
/// quotes found so far.
pub open spec fn scan_from(buf: Seq<u8>, at: int) -> ScanView
    decreases buf.len() - at,
{
    if at >= buf.len() {
        ScanView { records: Seq::empty(), consumed: at, error: None }
    } else {
        match frame_len_at(buf, at) {
            Err(e) => ScanView { records: Seq::empty(), consumed: at, error: Some(e) },
            Ok(n) => {
                let rest = scan_from(buf, at + n);
                ScanView {
                    records: quotes_of(buf.subrange(at, at + n)) + rest.records,
                    consumed: rest.consumed,
                    error: rest.error,
                }
            },
        }
    }
}

/// Whether a scan that starts at the frame boundary `from` comes to stand
/// at `at`: whether `at` is `from`, or a frame boundary behind it.
pub open spec fn is_boundary(buf: Seq<u8>, from: int, at: int) -> bool
    decreases buf.len() - from,
{
    if from >= at {
        from == at
    } else {
        match frame_len_at(buf, from) {
            Ok(n) => is_boundary(buf, from + n, at),
            Err(_) => false,
        }
    }
}

/// A scan stops for one of two reasons only, and where it stops without a
/// reason it has reached the end of the buffer. A frame that is cut short
/// within its body never stops a scan.
pub proof fn lemma_scan_stop(buf: Seq<u8>, at: int)
    requires
        0 <= at <= buf.len(),
    ensures
        at <= scan_from(buf, at).consumed <= buf.len(),
        scan_from(buf, at).error is None <==> scan_from(buf, at).consumed == buf.len(),
        scan_from(buf, at).error != Some(FeedError::TruncatedBody),
        scan_from(buf, at).error matches Some(e) ==> frame_len_at(
            buf,
            scan_from(buf, at).consumed,
        ) == Err::<int, FeedError>(e),
    decreases buf.len() - at,
{
    if at < buf.len() {
        if let Ok(n) = frame_len_at(buf, at) {
            lemma_scan_stop(buf, at + n);
        }
    }
}

/// Every quote that a scan gives is well formed.
pub proof fn lemma_scan_records_well_formed(buf: Seq<u8>, at: int)
    requires
        0 <= at,
    ensures
        forall|i: int|
            0 <= i < scan_from(buf, at).records.len() ==> (#[trigger] scan_from(
                buf,
                at,
            ).records[i]).wf(),
    decreases buf.len() - at,
{
    if at < buf.len() {
        if let Ok(n) = frame_len_at(buf, at) {
            lemma_body_is_well_formed(buf.subrange(at, at + n));
            lemma_scan_records_well_formed(buf, at + n);
        }
    }
}

/// A scan can be taken up again at any frame boundary it has passed: from
/// there it gives the quotes that were still to come, and stops at the same
/// place for the same reason.
pub proof fn lemma_scan_resumes(buf: Seq<u8>, from: int, at: int)
    requires
        0 <= from,
        is_boundary(buf, from, at),
    ensures
        scan_from(buf, from).consumed == scan_from(buf, at).consumed,
        scan_from(buf, from).error == scan_from(buf, at).error,
        scan_from(buf, at).records.is_suffix_of(scan_from(buf, from).records),
    decreases buf.len() - from,
{
    if from < at {
        let n = frame_len_at(buf, from)->Ok_0;
        let first = quotes_of(buf.subrange(from, from + n));
        let after = scan_from(buf, from + n).records;
        let tail = scan_from(buf, at).records;
        lemma_scan_resumes(buf, from + n, at);
        assert(scan_from(buf, from).records == first + after);
        assert(tail == after.subrange(after.len() - tail.len(), after.len() as int));
        assert(tail =~= (first + after).subrange(
            (first + after).len() - tail.len(),
            (first + after).len() as int,
        ));
    }
}

/// Where the last frame of a buffer declares more bytes than are left, the
/// scan stops at the start of that frame and says that the frame is
/// truncated.
pub proof fn lemma_overlong_last_frame(buf: Seq<u8>, at: int)
    requires
        is_boundary(buf, 0, at),
        at + HEADER_LEN <= buf.len(),
        declared_len(buf.subrange(at, at + HEADER_LEN)) > buf.len() - at,
    ensures
        scan_from(buf, 0).error == Some(FeedError::TruncatedFrame),
        scan_from(buf, 0).consumed == at,
{
    lemma_scan_resumes(buf, 0, at);
}

/// Decoding depends on the bytes of the buffer and on nothing else: two
/// scans of the same bytes give the same quotes in the same order, and stop
/// at the same place for the same reason.
pub proof fn lemma_rescan_is_identical(buf: Seq<u8>, first: Scan, second: Scan)
    requires
        first@ == scan_from(buf, 0),
        second@ == scan_from(buf, 0),
    ensures
        first@ == second@,
        first.records.len() == second.records.len(),
        forall|i: int| 0 <= i < first.records.len() ==> first.records[i]@ == second.records[i]@,
        first.consumed == second.consumed,
        first.error == second.error,
{
    assert(first@.records.len() == first.records.len());
    assert(second@.records.len() == second.records.len());
    assert forall|i: int| 0 <= i < first.records.len() implies first.records[i]@
        == second.records[i]@ by {
        assert(first@.records[i] == first.records[i]@);
        assert(second@.records[i] == second.records[i]@);
    }
}

/// Decodes every frame of the buffer, front to back.
pub fn parse_feed(buffer: &[u8]) -> (r: Scan)
    ensures
        r@ == scan_from(buffer@, 0),
        r.error is None <==> r.consumed == buffer.len(),
        r.error != Some(FeedError::TruncatedBody),
        forall|i: int| 0 <= i < r.records.len() ==> (#[trigger] r.records[i])@.wf(),
{
    proof {
        lemma_scan_stop(buffer@, 0);
    }
    let mut records: Vec<Data> = Vec::new();
    let mut at: usize = 0;
    while at < buffer.len()
        invariant
            at <= buffer.len(),
            forall|i: int| 0 <= i < records.len() ==> (#[trigger] records[i])@.wf(),
            scan_from(buffer@, 0).records == records@.map_values(|d: Data| d@) + scan_from(
                buffer@,
                at as int,
            ).records,
            scan_from(buffer@, 0).consumed == scan_from(buffer@, at as int).consumed,
            scan_from(buffer@, 0).error == scan_from(buffer@, at as int).error,
        decreases buffer.len() - at,
    {
        let frame = match cut_frame(buffer, at) {
            Ok(frame) => frame,
            Err(e) => {
                let r = Scan { records, consumed: at, error: Some(e) };
                assert(r@.records =~= scan_from(buffer@, 0).records);
                return r;
            },
        };
        let ghost before = records@.map_values(|d: Data| d@);
        match parse_6_6_body(frame) {
            Ok(Some(quote)) => {
                records.push(quote);
            },
            _ => {},
        }
        assert(records@.map_values(|d: Data| d@) =~= before + quotes_of(frame@));
        at += frame.len();
    }
    let r = Scan { records, consumed: at, error: None };
    assert(r@.records =~= scan_from(buffer@, 0).records);
    r
}

} // verus!
