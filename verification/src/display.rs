//! How an integer result is shown: in full up to `INLINE_LIMIT` digits,
//! beyond that as a summary of its length, first and last digits.
use crate::bigint::{abs, decimal_value, lemma_signed_decimal_round_trip, signed_decimal, BigInt};
use crate::natural::{bit_length, decimal, Natural};
use crate::powers::{lemma_ten_below_two, lemma_two_below_ten};
use vstd::arithmetic::power::*;
use vstd::prelude::*;

verus! {

/// The estimated number of digits above which a result is summarized.
pub const INLINE_LIMIT: usize = 10_000;

/// `floor(2^32 * log10(2))`: log10(2) as a 32-bit binary fraction, from below.
pub const LOG10_2_SCALED: u64 = 1_292_913_986;

/// An estimate of the number of decimal digits of `x`: its bit length `b`
/// times log10(2), rounded up, with log10(2) taken as
/// `LOG10_2_SCALED / 2^32`. For every `b` up to `u32::MAX` it is at most one
/// away from the number of digits, in either direction
/// (`lemma_approx_digits_within_one`).
pub open spec fn approx_digits_spec(x: int) -> nat {
    if x == 0 {
        1
    } else {
        ((bit_length(abs(x)) * LOG10_2_SCALED + 0xFFFF_FFFF) / 0x1_0000_0000) as nat
    }
}

/// The summary of a long decimal text `s`: its length, its first twelve and
/// its last eight characters.
pub open spec fn summary(s: Seq<char>) -> Seq<char> {
    "["@ + decimal(s.len()) + "-digit number: "@ + s.take(12) + "..."@ + s.skip(s.len() - 8)
        + "]  (use :full or :save <file>)"@
}

/// The text that shows the value `x`.
pub open spec fn display_spec(x: int) -> Seq<char> {
    if approx_digits_spec(x) <= INLINE_LIMIT {
        signed_decimal(x)
    } else {
        summary(signed_decimal(x))
    }
}

proof fn lemma_bit_length_lower(n: nat, k: nat)
    requires
        bit_length(n) > k,
    ensures
        n >= pow(2, k),
    decreases k,
{
    reveal(pow);
    if k > 0 {
        lemma_bit_length_lower(n / 2, (k - 1) as nat);
        assert(pow(2, k) == 2 * pow(2, (k - 1) as nat));
        assert(n >= 2 * (n / 2));
    } else {
        assert(pow(2, 0) == 1);
    }
}

proof fn lemma_decimal_len_lower(n: nat, k: nat)
    requires
        n >= pow(10, k),
    ensures
        decimal(n).len() > k,
    decreases k,
{
    reveal(pow);
    if k > 0 {
        lemma_pow_positive(10, (k - 1) as nat);
        assert(pow(10, k) == 10 * pow(10, (k - 1) as nat));
        assert(n / 10 >= pow(10, (k - 1) as nat));
        lemma_decimal_len_lower(n / 10, (k - 1) as nat);
        assert(n >= 10);
        assert(decimal(n).len() == decimal(n / 10).len() + 1);
    }
}

/// `n < 2^b`, where `b` is the bit length of `n`.
proof fn lemma_bit_length_upper(n: nat)
    ensures
        n < pow(2, bit_length(n)),
    decreases n,
{
    reveal(pow);
    if n > 0 {
        lemma_bit_length_upper(n / 2);
    }
}

/// `10^(d-1) <= n < 10^d`, where `d` is the number of digits of `n >= 1`.
proof fn lemma_decimal_len_bounds(n: nat)
    requires
        n >= 1,
    ensures
        decimal(n).len() >= 1,
        pow(10, (decimal(n).len() - 1) as nat) <= n,
        n < pow(10, decimal(n).len()),
    decreases n,
{
    reveal(pow);
    if n >= 10 {
        lemma_decimal_len_bounds(n / 10);
        assert(decimal(n).len() == decimal(n / 10).len() + 1);
    }
    if n >= pow(10, decimal(n).len()) {
        lemma_decimal_len_lower(n, decimal(n).len());
    }
}

/// The estimate is within one of the number of decimal digits of `|x|`, for
/// every nonzero `x` whose bit length fits in a `u32`.
pub proof fn lemma_approx_digits_within_one(x: int)
    requires
        x != 0,
        bit_length(abs(x)) <= u32::MAX,
    ensures
        decimal(abs(x)).len() - 1 <= approx_digits_spec(x) <= decimal(abs(x)).len() + 1,
{
    let n = abs(x);
    let b = bit_length(n);
    let d = decimal(n).len();
    lemma_decimal_len_bounds(n);
    lemma_bit_length_upper(n);
    assert(b >= 1);
    lemma_bit_length_lower(n, (b - 1) as nat);
    lemma_two_below_ten((b - 1) as nat, d);
    lemma_ten_below_two((d - 1) as nat, b);
    assert(21306 * (b - 1) < 70777 * d);
    assert(254370 * (d - 1) < 76573 * b);
}

/// A value summarized for its length has at least twenty digits.
proof fn lemma_summarized_is_long(x: int)
    requires
        approx_digits_spec(x) > INLINE_LIMIT,
    ensures
        signed_decimal(x).len() >= 20,
{
    let n = abs(x);
    assert(bit_length(n) > 65);
    lemma_bit_length_lower(n, 65);
    assert(pow(2, 65) == 36893488147419103232) by {
        reveal_with_fuel(pow, 66);
    }
    assert(pow(10, 19) == 10000000000000000000) by {
        reveal_with_fuel(pow, 20);
    }
    lemma_decimal_len_lower(n, 19);
}

/// The text after the last digits of a summary.
pub open spec fn summary_tail() -> Seq<char> {
    "]  (use :full or :save <file>)"@
}

/// What the display of `x` shows. Up to `INLINE_LIMIT` estimated digits, the
/// decimal text of `x` itself. Beyond it, a summary: `[`, the exact length
/// of that text in decimal, `-digit number: `, its first twelve characters,
/// `...`, its last eight characters, and `summary_tail()`.
pub proof fn lemma_display_shows(x: int)
    ensures
        approx_digits_spec(x) <= INLINE_LIMIT ==> display_spec(x) == signed_decimal(x),
        approx_digits_spec(x) > INLINE_LIMIT ==> ({
            let s = signed_decimal(x);
            let d = display_spec(x);
            let n = decimal(s.len()).len() as int;
            let tail = summary_tail().len() as int;
            &&& s.len() >= 20
            &&& d.len() == 1 + n + 15 + 12 + 3 + 8 + tail
            &&& d[0] == '['
            &&& decimal_value(d.subrange(1, 1 + n)) == s.len()
            &&& d.subrange(1 + n, 1 + n + 15) == "-digit number: "@
            &&& d.subrange(1 + n + 15, 1 + n + 27) == s.subrange(0, 12)
            &&& d.subrange(1 + n + 27, 1 + n + 30) == "..."@
            &&& d.subrange(d.len() - tail - 8, d.len() - tail) == s.subrange(s.len() - 8, s.len() as int)
            &&& d.subrange(d.len() - tail, d.len() as int) == summary_tail()
        }),
{
    if approx_digits_spec(x) > INLINE_LIMIT {
        lemma_summarized_is_long(x);
        let s = signed_decimal(x);
        let d = display_spec(x);
        let n = decimal(s.len()).len() as int;
        reveal_strlit("[");
        reveal_strlit("-digit number: ");
        reveal_strlit("...");
        reveal_strlit("]  (use :full or :save <file>)");
        lemma_signed_decimal_round_trip(s.len() as int);
        assert(signed_decimal(s.len() as int) == decimal(s.len()));
        let t = summary_tail();
        let p1 = "["@ + decimal(s.len());
        let p2 = p1 + "-digit number: "@;
        let p3 = p2 + s.take(12);
        let p4 = p3 + "..."@;
        let p5 = p4 + s.skip(s.len() - 8);
        assert(d == p5 + t);
        assert(d.subrange(1, 1 + n) =~= decimal(s.len()));
        assert(d.subrange(1 + n, 1 + n + 15) =~= "-digit number: "@);
        assert(d.subrange(1 + n + 15, 1 + n + 27) =~= s.subrange(0, 12));
        assert(d.subrange(1 + n + 27, 1 + n + 30) =~= "..."@);
        assert(d.subrange(d.len() - t.len() - 8, d.len() - t.len()) =~= s.subrange(
            s.len() - 8,
            s.len() as int,
        ));
        assert(d.subrange(d.len() - t.len(), d.len() as int) =~= t);
    }
}

impl BigInt {
    /// An estimate of the number of decimal digits, from the bit length
    /// (see `approx_digits_spec`).
    pub fn approx_digits(&self) -> (r: usize)
        requires
            bit_length(abs(self@)) <= u32::MAX,
        ensures
            r == approx_digits_spec(self@),
            self@ != 0 ==> decimal(abs(self@)).len() - 1 <= r <= decimal(abs(self@)).len() + 1,
    {
        if self.is_zero() {
            return 1;
        }
        proof {
            lemma_approx_digits_within_one(self@);
        }
        let bits = self.magnitude().significant_bits() as u64;
        ((bits * LOG10_2_SCALED + 0xFFFF_FFFF) / 0x1_0000_0000) as usize
    }

    /// The value in decimal, or a summary of it when it has more than
    /// `INLINE_LIMIT` digits by the estimate.
    pub fn display_string(&self) -> (r: String)
        requires
            bit_length(abs(self@)) <= u32::MAX,
        ensures
            r@ == display_spec(self@),
    {
        let approx = self.approx_digits();
        let s = self.to_decimal();
        if approx <= INLINE_LIMIT {
            return s;
        }
        proof {
            lemma_summarized_is_long(self@);
        }
        let text = s.as_str();
        let actual = text.unicode_len();
        let mut out = String::from_str("[");
        out.append(Natural::from_u64(actual as u64).to_decimal().as_str());
        out.append("-digit number: ");
        out.append(text.substring_char(0, 12));
        out.append("...");
        out.append(text.substring_char(actual - 8, actual));
        out.append("]  (use :full or :save <file>)");
        proof {
            assert(text@.subrange(0, 12) == text@.take(12));
            assert(text@.subrange(actual - 8, actual as int) == text@.skip(actual - 8));
        }
        out
    }
}

} // verus!
