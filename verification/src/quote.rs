//! The body of a quote frame: ticker code, clock time, and the best price on
//! each side of the book.
//!
//! Offsets count from the start of the frame, header included.
//!
//! | bytes    | field       | coding                                   |
//! |----------|-------------|------------------------------------------|
//! | `10..16` | ticker code | six raw characters                       |
//! | `16..22` | clock time  | six packed bytes                         |
//! | `22`     | flag byte   | bit layout, see [`Data3d3`]              |
//! | `29..`   | price block | nine-byte levels, see [`parse_6_6_body`] |

use crate::bcd::{
    bcd_value, digit_pair, lemma_bcd_value_bounds, lemma_bcd_value_push, parse, to_decimal,
    Decimal,
};
use crate::error::FeedError;
use vstd::arithmetic::power::{lemma_pow1, lemma_pow_adds, pow};
use vstd::prelude::*;
use vstd::slice::slice_subrange;

verus! {

/// What the flag byte says of the price block that follows it.
#[derive(Debug, Clone, Copy, PartialEq, Eq, Structural)]
pub struct Data3d3 {
    /// Bit 7: a deal-price level stands first in the price block.
    pub have_deal_price: bool,
    /// Bits 6 to 4: how many bid levels follow, `0..=7`.
    pub buy_price_count: u8,
    /// Bits 3 to 1: how many ask levels follow the bid levels, `0..=7`.
    pub sell_price_count: u8,
    /// Bit 0: only the best five levels of each side are given.
    pub have_best_5: bool,
}

/// The reading of a flag byte, bit by bit.
pub open spec fn flags_of(v: u8) -> Data3d3 {
    Data3d3 {
        have_deal_price: (v >> 7) & 1 == 1,
        buy_price_count: (v >> 4) & 0b111,
        sell_price_count: (v >> 1) & 0b111,
        have_best_5: v & 1 == 1,
    }
}

/// The byte that a set of flags packs into.
pub open spec fn flag_byte_of(d: Data3d3) -> int {
    (if d.have_deal_price { 128int } else { 0 }) + d.buy_price_count * 16 + d.sell_price_count * 2
        + (if d.have_best_5 { 1int } else { 0 })
}

/// A flag byte holds nothing but its four fields: both counts are below
/// eight, and the fields put together give the byte back.
pub proof fn lemma_flags_bounds(v: u8)
    ensures
        flags_of(v).buy_price_count <= 7,
        flags_of(v).sell_price_count <= 7,
        flag_byte_of(flags_of(v)) == v,
{
    assert((v >> 4) & 0b111 <= 7 && (v >> 1) & 0b111 <= 7) by (bit_vector);
    assert((if (v >> 7) & 1 == 1 { 128int } else { 0 }) + ((v >> 4) & 0b111) * 16 + ((v >> 1)
        & 0b111) * 2 + (if v & 1 == 1 { 1int } else { 0 }) == v) by (bit_vector);
}

/// Reads the flag byte.
pub fn parse_3_3(v: u8) -> (r: Data3d3)
    ensures
        r == flags_of(v),
        r.buy_price_count <= 7,
        r.sell_price_count <= 7,
{
    proof {
        lemma_flags_bounds(v);
    }
    Data3d3 {
        have_deal_price: (v >> 7) & 1 == 1,
        buy_price_count: (v >> 4) & 0b111,
        sell_price_count: (v >> 1) & 0b111,
        have_best_5: v & 1 == 1,
    }
}

/// Where the ticker code starts.
pub const CODE_START: usize = 10;

/// How many characters a ticker code has.
pub const CODE_LEN: usize = 6;

/// Where the clock time starts, and the ticker code ends.
pub const TIME_START: usize = 16;

/// Where the flag byte stands, and the clock time ends.
pub const FLAG_INDEX: usize = 22;

/// Where the price block starts.
pub const PRICE_START: usize = 29;

/// How many bytes one level of the price block takes.
pub const LEVEL_LEN: usize = 9;

/// How many bytes of a level hold its price.
pub const PRICE_LEN: usize = 5;

/// How many bytes of a price hold its integer digits.
pub const PRICE_INT_LEN: usize = 3;

/// How many bytes of a price hold its fractional digits.
pub const PRICE_FRAC_LEN: usize = 2;

/// One decoded quote.
#[derive(Debug, Clone, PartialEq, Eq)]
pub struct Data {
    /// The six characters of the ticker code.
    pub code: String,
    /// Best bid, with four fractional digits; zero where no bid is given.
    pub bid_price: Decimal,
    /// Best ask, with four fractional digits; zero where no ask is given.
    pub ask_price: Decimal,
    /// Clock time as `HHMMSS` followed by six sub-second digits.
    pub time: u64,
}

/// A quote as plain mathematical values.
pub struct DataView {
    pub code: Seq<char>,
    pub bid_price: Decimal,
    pub ask_price: Decimal,
    pub time: u64,
}

impl DataView {
    /// Whether the values are such as a frame can spell: a code of six
    /// characters, a clock time of at most twelve digits that is not zero,
    /// and prices of at most six integer and exactly four fractional digits.
    pub open spec fn wf(self) -> bool {
        &&& self.code.len() == CODE_LEN
        &&& 0 < self.time <= 999_999_999_999
        &&& self.bid_price.frac_pairs == PRICE_FRAC_LEN
        &&& self.bid_price.units <= 9_999_999_999
        &&& self.ask_price.frac_pairs == PRICE_FRAC_LEN
        &&& self.ask_price.units <= 9_999_999_999
    }
}

impl View for Data {
    type V = DataView;

    open spec fn view(&self) -> DataView {
        DataView {
            code: self.code@,
            bid_price: self.bid_price,
            ask_price: self.ask_price,
            time: self.time,
        }
    }
}

/// The ticker code of a frame: bytes ten to fifteen, each as one character.
pub open spec fn code_of(frame: Seq<u8>) -> Seq<char> {
    Seq::new(CODE_LEN as nat, |i: int| frame[CODE_START + i] as char)
}

/// The digit pair of the `k`-th byte of the clock time.
pub open spec fn time_pair(frame: Seq<u8>, k: int) -> int {
    digit_pair(frame[TIME_START + k])
}

/// The clock time of a frame: hour, minute and second, then three digit
/// pairs of sub-second fraction.
pub open spec fn time_of(frame: Seq<u8>) -> int {
    let clock = time_pair(frame, 0) * 10_000 + time_pair(frame, 1) * 100 + time_pair(frame, 2);
    let fraction = time_pair(frame, 3) * 10_000 + time_pair(frame, 4) * 100 + time_pair(frame, 5);
    clock * 1_000_000 + fraction
}

/// The clock time is the number that its six bytes spell.
pub proof fn lemma_time_is_bcd_value(frame: Seq<u8>)
    requires
        frame.len() >= FLAG_INDEX,
    ensures
        time_of(frame) == bcd_value(frame.subrange(TIME_START as int, FLAG_INDEX as int)),
        0 <= time_of(frame) <= 999_999_999_999,
{
    let t = frame.subrange(TIME_START as int, FLAG_INDEX as int);
    let t0 = Seq::<u8>::empty();
    let t1 = t0.push(t[0]);
    let t2 = t1.push(t[1]);
    let t3 = t2.push(t[2]);
    let t4 = t3.push(t[3]);
    let t5 = t4.push(t[4]);
    let t6 = t5.push(t[5]);
    assert(t =~= t6);
    lemma_bcd_value_push(t0, t[0]);
    lemma_bcd_value_push(t1, t[1]);
    lemma_bcd_value_push(t2, t[2]);
    lemma_bcd_value_push(t3, t[3]);
    lemma_bcd_value_push(t4, t[4]);
    lemma_bcd_value_push(t5, t[5]);
}

/// The clock time is zero exactly where its six bytes are all zero.
pub proof fn lemma_time_zero(frame: Seq<u8>)
    requires
        frame.len() >= FLAG_INDEX,
    ensures
        time_of(frame) == 0 <==> forall|i: int| TIME_START <= i < FLAG_INDEX ==> frame[i] == 0,
{
    let t = TIME_START as int;
    if time_of(frame) == 0 {
        assert(forall|k: int| 0 <= k < 6 ==> time_pair(frame, k) == 0);
        assert forall|i: int| TIME_START <= i < FLAG_INDEX implies frame[i] == 0 by {
            assert(time_pair(frame, i - t) == 0);
        }
    } else {
        if forall|i: int| TIME_START <= i < FLAG_INDEX ==> frame[i] == 0 {
            assert(frame[t] == 0 && frame[t + 1] == 0 && frame[t + 2] == 0 && frame[t + 3] == 0
                && frame[t + 4] == 0 && frame[t + 5] == 0);
        }
    }
}

/// Where the first bid level starts: behind the deal-price level, if the
/// flags announce one.
pub open spec fn bid_offset(flags: Data3d3) -> int {
    PRICE_START + if flags.have_deal_price {
        LEVEL_LEN as int
    } else {
        0
    }
}

/// Where the first ask level starts: behind all the bid levels.
pub open spec fn ask_offset(flags: Data3d3) -> int {
    bid_offset(flags) + flags.buy_price_count * LEVEL_LEN
}

/// The price of the level that starts at `at`: six integer digits and four
/// fractional digits.
pub open spec fn price_at(frame: Seq<u8>, at: int) -> Decimal {
    Decimal {
        units: bcd_value(frame.subrange(at, at + PRICE_LEN)) as u64,
        frac_pairs: PRICE_FRAC_LEN,
    }
}

/// Five packed bytes spell a number of at most ten digits.
pub proof fn lemma_price_fits(digits: Seq<u8>)
    requires
        digits.len() == PRICE_LEN,
    ensures
        0 <= bcd_value(digits) <= 9_999_999_999,
{
    lemma_bcd_value_bounds(digits);
    lemma_pow1(100);
    lemma_pow_adds(100, 1, 1);
    lemma_pow_adds(100, 2, 2);
    lemma_pow_adds(100, 4, 1);
    let myriad = pow(100, 2);
    assert(myriad == 10_000);
    assert(myriad * myriad == 100_000_000) by (nonlinear_arith)
        requires
            myriad == 10_000,
    ;
    assert(pow(100, 5) == 100_000_000 * 100);
}

/// The price that stands for a side without levels.
pub open spec fn no_price() -> Decimal {
    Decimal { units: 0, frac_pairs: PRICE_FRAC_LEN }
}

/// The best bid of a frame: the price of its first bid level.
pub open spec fn bid_of(frame: Seq<u8>) -> Decimal {
    let flags = flags_of(frame[FLAG_INDEX as int]);
    if flags.buy_price_count > 0 {
        price_at(frame, bid_offset(flags))
    } else {
        no_price()
    }
}

/// The best ask of a frame: the price of its first ask level.
pub open spec fn ask_of(frame: Seq<u8>) -> Decimal {
    let flags = flags_of(frame[FLAG_INDEX as int]);
    if flags.sell_price_count > 0 {
        price_at(frame, ask_offset(flags))
    } else {
        no_price()
    }
}

/// Whether the frame holds its flag byte and every price that the flag byte
/// says is to be read.
pub open spec fn prices_fit(frame: Seq<u8>) -> bool {
    let flags = flags_of(frame[FLAG_INDEX as int]);
    &&& frame.len() > FLAG_INDEX
    &&& flags.buy_price_count > 0 ==> bid_offset(flags) + PRICE_LEN <= frame.len()
    &&& flags.sell_price_count > 0 ==> ask_offset(flags) + PRICE_LEN <= frame.len()
}

/// What a frame decodes to.
///
/// A frame too short for its code and clock time is an error. A clock time
/// of zero marks a frame that carries no quote, whatever else it holds.
/// Otherwise the frame must hold its flag byte and the prices to be read.
pub open spec fn body_of(frame: Seq<u8>) -> Result<Option<DataView>, FeedError> {
    if frame.len() < FLAG_INDEX {
        Err(FeedError::TruncatedBody)
    } else if time_of(frame) == 0 {
        Ok(None)
    } else if !prices_fit(frame) {
        Err(FeedError::TruncatedBody)
    } else {
        Ok(
            Some(
                DataView {
                    code: code_of(frame),
                    bid_price: bid_of(frame),
                    ask_price: ask_of(frame),
                    time: time_of(frame) as u64,
                },
            ),
        )
    }
}

/// Every quote that a frame decodes to is well formed.
pub proof fn lemma_body_is_well_formed(frame: Seq<u8>)
    ensures
        body_of(frame) matches Ok(Some(d)) ==> d.wf(),
{
    if let Ok(Some(d)) = body_of(frame) {
        let flags = flags_of(frame[FLAG_INDEX as int]);
        lemma_time_is_bcd_value(frame);
        lemma_flags_bounds(frame[FLAG_INDEX as int]);
        if flags.buy_price_count > 0 {
            lemma_price_fits(frame.subrange(bid_offset(flags), bid_offset(flags) + PRICE_LEN));
        }
        if flags.sell_price_count > 0 {
            lemma_price_fits(frame.subrange(ask_offset(flags), ask_offset(flags) + PRICE_LEN));
        }
    }
}

/// The outcome of a decode, with the quote taken by its view.
pub open spec fn outcome_view(r: Result<Option<Data>, FeedError>) -> Result<
    Option<DataView>,
    FeedError,
> {
    match r {
        Ok(Some(d)) => Ok(Some(d@)),
        Ok(None) => Ok(None),
        Err(e) => Err(e),
    }
}

/// `String::push` of the standard library: afterwards the string holds the
/// characters it held before, followed by `c`.
#[verifier::external_body]
fn push_char(s: &mut String, c: char)
    ensures
        final(s)@ == old(s)@.push(c),
{
    s.push(c)
}

/// Copies the ticker code out of a frame.
fn read_code(chunk: &[u8]) -> (code: String)
    requires
        chunk.len() >= TIME_START,
    ensures
        code@ == code_of(chunk@),
{
    let mut code = String::new();
    let mut i: usize = CODE_START;
    while i < TIME_START
        invariant
            CODE_START <= i <= TIME_START <= chunk.len(),
            code@.len() == i - CODE_START,
            forall|k: int| 0 <= k < code@.len() ==> code@[k] == chunk@[CODE_START + k] as char,
        decreases TIME_START - i,
    {
        push_char(&mut code, chunk[i] as char);
        i += 1;
    }
    assert(code@ =~= code_of(chunk@));
    code
}

/// Decodes the clock time of a frame.
fn read_time(chunk: &[u8]) -> (time: u64)
    requires
        chunk.len() >= FLAG_INDEX,
    ensures
        time == time_of(chunk@),
        time <= 999_999_999_999,
{
    let hour: u64 = parse(chunk[TIME_START]) as u64;
    let minute: u64 = parse(chunk[TIME_START + 1]) as u64;
    let second: u64 = parse(chunk[TIME_START + 2]) as u64;
    let clock: u64 = hour * 10_000 + minute * 100 + second;
    let fraction: u64 = parse(chunk[TIME_START + 3]) as u64 * 10_000 + parse(
        chunk[TIME_START + 4],
    ) as u64 * 100 + parse(chunk[TIME_START + 5]) as u64;
    clock * 1_000_000 + fraction
}

/// Decodes the price of the level that starts at `at`.
fn read_price(chunk: &[u8], at: usize) -> (price: Decimal)
    requires
        at + PRICE_LEN <= chunk.len(),
    ensures
        price == price_at(chunk@, at as int),
{
    let digits = slice_subrange(chunk, at, at + PRICE_LEN);
    proof {
        lemma_price_fits(digits@);
    }
    to_decimal(digits, PRICE_INT_LEN)
}

/// Decodes one frame into its quote.
///
/// Of the price block only the first level of each side is read. The
/// deal-price level, where the flags announce one, is stepped over.
pub fn parse_6_6_body(chunk: &[u8]) -> (r: Result<Option<Data>, FeedError>)
    ensures
        outcome_view(r) == body_of(chunk@),
        r matches Ok(Some(d)) ==> d@.wf(),
        chunk.len() >= FLAG_INDEX && time_of(chunk@) == 0 ==> r == Ok::<Option<Data>, FeedError>(
            None,
        ),
        r is Err ==> r == Err::<Option<Data>, FeedError>(FeedError::TruncatedBody),
{
    proof {
        lemma_body_is_well_formed(chunk@);
    }
    if chunk.len() < FLAG_INDEX {
        return Err(FeedError::TruncatedBody);
    }
    let time = read_time(chunk);
    if time == 0 {
        return Ok(None);
    }
    if chunk.len() <= FLAG_INDEX {
        return Err(FeedError::TruncatedBody);
    }
    let flags = parse_3_3(chunk[FLAG_INDEX]);
    let mut index: usize = PRICE_START + if flags.have_deal_price {
        LEVEL_LEN
    } else {
        0
    };
    let mut bid_price = Decimal { units: 0, frac_pairs: PRICE_FRAC_LEN };
    if flags.buy_price_count > 0 {
        if chunk.len() < index + PRICE_LEN {
            return Err(FeedError::TruncatedBody);
        }
        bid_price = read_price(chunk, index);
    }
    index += flags.buy_price_count as usize * LEVEL_LEN;
    let mut ask_price = Decimal { units: 0, frac_pairs: PRICE_FRAC_LEN };
    if flags.sell_price_count > 0 {
        if chunk.len() < index + PRICE_LEN {
            return Err(FeedError::TruncatedBody);
        }
        ask_price = read_price(chunk, index);
    }
    let code = read_code(chunk);
    Ok(Some(Data { code, bid_price, ask_price, time }))
}

} // verus!
