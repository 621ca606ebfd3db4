//! Packed binary-coded decimal: two decimal digits per byte.
//!
//! Malformed digits saturate: a nibble above nine is read as nine, so every
//! byte decodes to a value in `0..=99` and no decode of digits can fail.

use vstd::arithmetic::div_mod::lemma_fundamental_div_mod_converse;
use vstd::arithmetic::power::{
    lemma_pow0, lemma_pow1, lemma_pow_adds, lemma_pow_increases, lemma_pow_positive, pow,
};
use vstd::prelude::*;

verus! {

/// The upper four bits of a byte.
pub open spec fn high_nibble(b: u8) -> int {
    b as int / 16
}

/// The lower four bits of a byte.
pub open spec fn low_nibble(b: u8) -> int {
    b as int % 16
}

/// Whether both nibbles of a byte are decimal digits.
pub open spec fn is_bcd(b: u8) -> bool {
    high_nibble(b) <= 9 && low_nibble(b) <= 9
}

/// A nibble read as a decimal digit; anything above nine counts as nine.
pub open spec fn digit_of(nibble: int) -> int {
    if nibble > 9 {
        9
    } else {
        nibble
    }
}

/// The two-digit number held by one byte.
pub open spec fn digit_pair(b: u8) -> int {
    digit_of(high_nibble(b)) * 10 + digit_of(low_nibble(b))
}

/// Decodes one packed byte into the number `0..=99` that its two digits
/// spell: ten times the high nibble plus the low nibble, where a nibble above
/// nine counts as nine.
pub fn parse(v: u8) -> (r: u8)
    ensures
        r == digit_pair(v),
        r <= 99,
        is_bcd(v) ==> r == high_nibble(v) * 10 + low_nibble(v),
{
    let hi: u8 = v >> 4;
    let lo: u8 = v & 0b0000_1111;
    assert(hi == v / 16 && lo == v % 16) by (bit_vector)
        requires
            hi == v >> 4,
            lo == v & 0b0000_1111,
    ;
    let hi: u8 = if hi > 9 { 9 } else { hi };
    let lo: u8 = if lo > 9 { 9 } else { lo };
    10 * hi + lo
}

/// The number that a run of packed bytes spells, most significant byte
/// first: the byte at index `i` of `n` bytes weighs `100^(n - 1 - i)`.
pub open spec fn bcd_value(s: Seq<u8>) -> int
    decreases s.len(),
{
    if s.len() == 0 {
        0
    } else {
        digit_pair(s[0]) * pow(100, (s.len() - 1) as nat) + bcd_value(s.drop_first())
    }
}

/// The digits of `a` followed by those of `b` spell the value of `a`,
/// shifted left by two decimal places per byte of `b`, plus the value of `b`.
pub proof fn lemma_bcd_value_concat(a: Seq<u8>, b: Seq<u8>)
    ensures
        bcd_value(a + b) == bcd_value(a) * pow(100, b.len()) + bcd_value(b),
    decreases a.len(),
{
    if a.len() == 0 {
        assert(a + b =~= b);
    } else {
        let rest = a.drop_first();
        let hi = pow(100, rest.len());
        let lo = pow(100, b.len());
        assert((a + b).drop_first() =~= rest + b);
        lemma_bcd_value_concat(rest, b);
        lemma_pow_adds(100, rest.len(), b.len());
        assert(pow(100, ((a + b).len() - 1) as nat) == hi * lo);
        assert((digit_pair(a[0]) * hi + bcd_value(rest)) * lo == digit_pair(a[0]) * (hi * lo)
            + bcd_value(rest) * lo) by (nonlinear_arith);
    }
}

/// Appending one byte multiplies the value by one hundred and adds the
/// byte's digit pair.
pub proof fn lemma_bcd_value_push(s: Seq<u8>, b: u8)
    ensures
        bcd_value(s.push(b)) == bcd_value(s) * 100 + digit_pair(b),
{
    let one = seq![b];
    assert(s.push(b) =~= s + one);
    lemma_bcd_value_concat(s, one);
    lemma_pow0(100);
    lemma_pow1(100);
    assert(bcd_value(one) == digit_pair(b)) by {
        assert(one.drop_first().len() == 0);
        assert(bcd_value(one.drop_first()) == 0);
    }
}

/// `n` bytes spell a number of at most `2 * n` decimal digits.
pub proof fn lemma_bcd_value_bounds(s: Seq<u8>)
    ensures
        0 <= bcd_value(s) < pow(100, s.len()),
    decreases s.len(),
{
    if s.len() == 0 {
        reveal(pow);
    } else {
        let rest = s.drop_first();
        let hi = pow(100, rest.len());
        lemma_bcd_value_bounds(rest);
        assert(pow(100, s.len()) == 100 * hi) by {
            reveal(pow);
        }
        assert(0 <= digit_pair(s[0]) * hi <= 99 * hi) by (nonlinear_arith)
            requires
                0 <= digit_pair(s[0]) <= 99,
                0 < hi,
        ;
    }
}

/// Nine bytes or fewer spell a number below `10^18`, which fits in 64 bits.
pub proof fn lemma_bcd_value_fits(s: Seq<u8>)
    requires
        s.len() <= 9,
    ensures
        0 <= bcd_value(s) < 1_000_000_000_000_000_000,
{
    lemma_bcd_value_bounds(s);
    lemma_pow_increases(100, s.len(), 9);
    lemma_pow1(100);
    lemma_pow_adds(100, 1, 1);
    lemma_pow_adds(100, 2, 2);
    lemma_pow_adds(100, 4, 4);
    lemma_pow_adds(100, 8, 1);
    let square = pow(100, 2);
    let fourth = pow(100, 4);
    let eighth = pow(100, 8);
    assert(square == 10_000);
    assert(fourth == 100_000_000) by (nonlinear_arith)
        requires
            fourth == square * square,
            square == 10_000,
    ;
    assert(eighth == 10_000_000_000_000_000) by (nonlinear_arith)
        requires
            eighth == fourth * fourth,
            fourth == 100_000_000,
    ;
    assert(pow(100, 9) == eighth * 100);
}

/// A prefix never spells more than the whole.
pub proof fn lemma_bcd_value_prefix(s: Seq<u8>, k: int)
    requires
        0 <= k <= s.len(),
    ensures
        0 <= bcd_value(s.subrange(0, k)) <= bcd_value(s),
{
    let head = s.subrange(0, k);
    let tail = s.subrange(k, s.len() as int);
    let shift = pow(100, tail.len());
    assert(s =~= head + tail);
    lemma_bcd_value_concat(head, tail);
    lemma_bcd_value_bounds(head);
    lemma_bcd_value_bounds(tail);
    lemma_pow_positive(100, tail.len());
    assert(bcd_value(head) <= bcd_value(head) * shift) by (nonlinear_arith)
        requires
            0 <= bcd_value(head),
            1 <= shift,
    ;
}

/// Decodes a run of packed bytes as one unsigned number, most significant
/// byte first.
///
/// Nine bytes or fewer always fit; see [`lemma_bcd_value_fits`].
pub fn to_usize(b: &[u8]) -> (r: u64)
    requires
        bcd_value(b@) <= u64::MAX,
    ensures
        r == bcd_value(b@),
{
    let mut acc: u64 = 0;
    let mut i: usize = 0;
    while i < b.len()
        invariant
            i <= b.len(),
            acc == bcd_value(b@.subrange(0, i as int)),
            bcd_value(b@) <= u64::MAX,
        decreases b.len() - i,
    {
        let d: u8 = parse(b[i]);
        proof {
            assert(b@.subrange(0, i + 1) =~= b@.subrange(0, i as int).push(b@[i as int]));
            lemma_bcd_value_push(b@.subrange(0, i as int), b@[i as int]);
            lemma_bcd_value_prefix(b@, i + 1);
        }
        acc = acc * 100 + d as u64;
        i += 1;
    }
    assert(b@.subrange(0, i as int) =~= b@);
    acc
}

/// An exact non-negative decimal number: `units / 100^frac_pairs`.
#[derive(Debug, Clone, Copy, PartialEq, Eq)]
pub struct Decimal {
    /// The number with its decimal point taken out.
    pub units: u64,
    /// How many digit pairs of `units` stand behind the decimal point.
    pub frac_pairs: usize,
}

impl Decimal {
    /// The weight of the last integer digit: `100^frac_pairs`.
    pub open spec fn scale(self) -> int {
        pow(100, self.frac_pairs as nat)
    }

    /// What stands before the decimal point.
    pub open spec fn integer_part(self) -> int {
        self.units as int / self.scale()
    }

    /// What stands behind the decimal point, as a count of `1 / scale()`.
    pub open spec fn fraction_part(self) -> int {
        self.units as int % self.scale()
    }
}

/// Decodes a run of packed bytes as a fixed-point number whose first
/// `int_len` bytes are the integer digits and whose remaining bytes are the
/// fractional digits, two per byte, in falling weight `1/100`, `1/10000`, ...
pub fn to_decimal(data: &[u8], int_len: usize) -> (r: Decimal)
    requires
        int_len <= data.len(),
        bcd_value(data@) <= u64::MAX,
    ensures
        r.units == bcd_value(data@),
        r.frac_pairs == data.len() - int_len,
        r.integer_part() == bcd_value(data@.subrange(0, int_len as int)),
        r.fraction_part() == bcd_value(data@.subrange(int_len as int, data.len() as int)),
{
    let r = Decimal { units: to_usize(data), frac_pairs: data.len() - int_len };
    proof {
        let head = data@.subrange(0, int_len as int);
        let tail = data@.subrange(int_len as int, data.len() as int);
        assert(data@ =~= head + tail);
        lemma_bcd_value_concat(head, tail);
        lemma_bcd_value_bounds(tail);
        lemma_fundamental_div_mod_converse(
            bcd_value(data@),
            r.scale(),
            bcd_value(head),
            bcd_value(tail),
        );
    }
    r
}

} // verus!
