//! Non-negative big integers stored as little-endian 64-bit limbs.
//!
//! GMP (through `rug`) does the arithmetic; each operation goes through a
//! trusted wrapper that takes and returns plain limb vectors, converting with
//! `Integer::from_digits` and `Integer::to_digits` in the least significant
//! first order.
use rug::integer::{IntegerExt64, Order};
use rug::ops::Pow;
use rug::Integer;
use vstd::arithmetic::power::pow;
use vstd::prelude::*;

verus! {

/// The radix of one limb, 2^64.
pub open spec fn limb_base() -> nat {
    0x1_0000_0000_0000_0000nat
}

/// The value of a little-endian limb sequence.
pub open spec fn limbs_value(s: Seq<u64>) -> nat
    decreases s.len(),
{
    if s.len() == 0 {
        0
    } else {
        s[0] as nat + limb_base() * limbs_value(s.drop_first())
    }
}

/// No most significant zero limb: each value has exactly one such form.
pub open spec fn limbs_normalized(s: Seq<u64>) -> bool {
    s.len() == 0 || s.last() != 0
}

/// The decimal digit `d` as a character.
pub open spec fn digit_char(d: nat) -> char {
    (d + 48) as char
}

/// The decimal representation of `n`, without leading zeros ("0" for zero).
pub open spec fn decimal(n: nat) -> Seq<char>
    decreases n,
{
    if n < 10 {
        seq![digit_char(n)]
    } else {
        decimal(n / 10).push(digit_char(n % 10))
    }
}

/// The number of binary digits of `n` (0 for zero).
pub open spec fn bit_length(n: nat) -> nat
    decreases n,
{
    if n == 0 {
        0
    } else {
        1 + bit_length(n / 2)
    }
}

/// `Integer::from_digits`, `+`, `Integer::to_digits`: GMP's exact sum of two
/// naturals. `to_digits` returns the significant digits only.
#[verifier::external_body]
fn gmp_add(a: &Vec<u64>, b: &Vec<u64>) -> (r: Vec<u64>)
    ensures
        limbs_normalized(r@),
        limbs_value(r@) == limbs_value(a@) + limbs_value(b@),
{
    (Integer::from_digits(a, Order::Lsf) + Integer::from_digits(b, Order::Lsf)).to_digits::<u64>(
        Order::Lsf,
    )
}

/// `Integer::from_digits`, `<`, `-`, `Integer::to_digits`: the absolute value
/// of the difference of two naturals (`to_digits` gives the digits of the
/// absolute value), and whether the first is the smaller.
#[verifier::external_body]
fn gmp_sub(a: &Vec<u64>, b: &Vec<u64>) -> (r: (Vec<u64>, bool))
    ensures
        limbs_normalized(r.0@),
        limbs_value(r.0@) == if limbs_value(a@) < limbs_value(b@) {
            limbs_value(b@) - limbs_value(a@)
        } else {
            limbs_value(a@) - limbs_value(b@)
        },
        r.1 == (limbs_value(a@) < limbs_value(b@)),
{
    let x = Integer::from_digits(a, Order::Lsf);
    let y = Integer::from_digits(b, Order::Lsf);
    let less = x < y;
    ((x - y).to_digits::<u64>(Order::Lsf), less)
}

/// `Integer::from_digits`, `*`, `Integer::to_digits`: GMP's exact product of
/// two naturals.
#[verifier::external_body]
fn gmp_mul(a: &Vec<u64>, b: &Vec<u64>) -> (r: Vec<u64>)
    ensures
        limbs_normalized(r@),
        limbs_value(r@) == limbs_value(a@) * limbs_value(b@),
{
    (Integer::from_digits(a, Order::Lsf) * Integer::from_digits(b, Order::Lsf)).to_digits::<u64>(
        Order::Lsf,
    )
}

/// `Integer::div_rem` on two naturals: the quotient and the remainder of
/// Euclidean division (for non-negative operands truncation and flooring
/// agree). It panics on a zero divisor, which `requires` rules out.
#[verifier::external_body]
fn gmp_div_rem(a: &Vec<u64>, b: &Vec<u64>) -> (r: (Vec<u64>, Vec<u64>))
    requires
        limbs_value(b@) > 0,
    ensures
        limbs_normalized(r.0@),
        limbs_normalized(r.1@),
        limbs_value(r.0@) == limbs_value(a@) / limbs_value(b@),
        limbs_value(r.1@) == limbs_value(a@) % limbs_value(b@),
{
    let (q, m) = Integer::from_digits(a, Order::Lsf).div_rem(Integer::from_digits(b, Order::Lsf));
    (q.to_digits::<u64>(Order::Lsf), m.to_digits::<u64>(Order::Lsf))
}

/// `Pow<u32>` for `Integer`: GMP's exact power of a natural.
#[verifier::external_body]
fn gmp_pow(a: &Vec<u64>, e: u32) -> (r: Vec<u64>)
    ensures
        limbs_normalized(r@),
        limbs_value(r@) == pow(limbs_value(a@) as int, e as nat),
{
    Integer::from_digits(a, Order::Lsf).pow(e).to_digits::<u64>(Order::Lsf)
}

/// `Integer::to_string_radix(10)` of a natural: its decimal digits, without
/// leading zeros.
#[verifier::external_body]
fn gmp_decimal(a: &Vec<u64>) -> (r: String)
    ensures
        r@ == decimal(limbs_value(a@)),
{
    Integer::from_digits(a, Order::Lsf).to_string_radix(10)
}

/// `IntegerExt64::significant_bits_64` of a natural: the number of bits it
/// needs (0 for zero), as a `u64`.
#[verifier::external_body]
fn gmp_significant_bits(a: &Vec<u64>) -> (r: u64)
    ensures
        r == bit_length(limbs_value(a@)),
{
    Integer::from_digits(a, Order::Lsf).significant_bits_64()
}

/// A normalized limb sequence is empty exactly when its value is zero, and has
/// at most one limb exactly when its value is below 2^64.
proof fn lemma_small_iff_short(s: Seq<u64>)
    requires
        limbs_normalized(s),
    ensures
        s.len() == 0 <==> limbs_value(s) == 0,
        s.len() <= 1 <==> limbs_value(s) < limb_base(),
        s.len() == 1 ==> limbs_value(s) == s[0],
    decreases s.len(),
{
    if s.len() > 0 {
        let rest = s.drop_first();
        assert(limbs_value(rest) == 0 ==> rest.len() == 0) by {
            if rest.len() > 0 {
                assert(rest.last() == s.last());
                lemma_small_iff_short(rest);
            }
        }
        if rest.len() == 0 {
            assert(limbs_value(rest) == 0);
        } else {
            assert(limbs_value(rest) >= 1);
            assert(limb_base() * limbs_value(rest) >= limb_base()) by (nonlinear_arith)
                requires
                    limbs_value(rest) >= 1,
            ;
        }
    }
}

/// A natural number of any size.
#[derive(Debug)]
pub struct Natural {
    limbs: Vec<u64>,
}

impl View for Natural {
    type V = nat;

    closed spec fn view(&self) -> nat {
        limbs_value(self.limbs@)
    }
}

impl Natural {
    #[verifier::type_invariant]
    spec fn normalized(self) -> bool {
        limbs_normalized(self.limbs@)
    }

    /// The natural with value `x`.
    pub fn from_u64(x: u64) -> (r: Natural)
        ensures
            r@ == x,
    {
        let mut limbs: Vec<u64> = Vec::new();
        if x != 0 {
            limbs.push(x);
            assert(limbs@.drop_first() =~= Seq::<u64>::empty());
            assert(limbs_value(limbs@.drop_first()) == 0);
        }
        Natural { limbs }
    }

    /// The limbs, least significant first, without a most significant zero.
    pub fn limbs(&self) -> (r: &Vec<u64>)
        ensures
            limbs_value(r@) == self@,
            limbs_normalized(r@),
    {
        proof {
            use_type_invariant(self);
        }
        &self.limbs
    }

    /// A natural with the same value.
    pub fn copy(&self) -> (r: Natural)
        ensures
            r@ == self@,
    {
        proof {
            use_type_invariant(self);
        }
        let limbs = self.limbs.clone();
        assert(limbs@ == self.limbs@);
        Natural { limbs }
    }

    /// Whether the value is zero.
    pub fn is_zero(&self) -> (r: bool)
        ensures
            r == (self@ == 0),
    {
        proof {
            use_type_invariant(self);
            lemma_small_iff_short(self.limbs@);
        }
        self.limbs.len() == 0
    }

    /// The value as a `u32`, if it fits.
    pub fn to_u32(&self) -> (r: Option<u32>)
        ensures
            r == if self@ <= u32::MAX {
                Some(self@ as u32)
            } else {
                None::<u32>
            },
    {
        proof {
            use_type_invariant(self);
            lemma_small_iff_short(self.limbs@);
        }
        if self.limbs.len() == 0 {
            Some(0)
        } else if self.limbs.len() == 1 && self.limbs[0] <= 0xFFFF_FFFF {
            Some(self.limbs[0] as u32)
        } else {
            None
        }
    }

    /// `self + other`.
    pub fn add(&self, other: &Natural) -> (r: Natural)
        ensures
            r@ == self@ + other@,
    {
        Natural { limbs: gmp_add(&self.limbs, &other.limbs) }
    }

    /// `|self - other|`, and whether `self < other`.
    pub fn abs_diff(&self, other: &Natural) -> (r: (Natural, bool))
        ensures
            r.0@ == if self@ < other@ {
                other@ - self@
            } else {
                self@ - other@
            },
            r.1 == (self@ < other@),
    {
        let (limbs, less) = gmp_sub(&self.limbs, &other.limbs);
        (Natural { limbs }, less)
    }

    /// `self * other`.
    pub fn mul(&self, other: &Natural) -> (r: Natural)
        ensures
            r@ == self@ * other@,
    {
        Natural { limbs: gmp_mul(&self.limbs, &other.limbs) }
    }

    /// The quotient and the remainder of `self` divided by `other`.
    pub fn div_rem(&self, other: &Natural) -> (r: (Natural, Natural))
        requires
            other@ > 0,
        ensures
            r.0@ == self@ / other@,
            r.1@ == self@ % other@,
    {
        let (q, m) = gmp_div_rem(&self.limbs, &other.limbs);
        (Natural { limbs: q }, Natural { limbs: m })
    }

    /// `self` to the power `e`.
    pub fn pow(&self, e: u32) -> (r: Natural)
        ensures
            r@ == pow(self@ as int, e as nat),
    {
        Natural { limbs: gmp_pow(&self.limbs, e) }
    }

    /// The decimal digits of the value.
    pub fn to_decimal(&self) -> (r: String)
        ensures
            r@ == decimal(self@),
    {
        gmp_decimal(&self.limbs)
    }

    /// The number of bits the value needs, when it fits a `u32`.
    pub fn significant_bits(&self) -> (r: u32)
        requires
            bit_length(self@) <= u32::MAX,
        ensures
            r == bit_length(self@),
    {
        gmp_significant_bits(&self.limbs) as u32
    }

    /// The number of bits the value needs.
    pub fn significant_bits_64(&self) -> (r: u64)
        ensures
            r == bit_length(self@),
    {
        gmp_significant_bits(&self.limbs)
    }
}

} // verus!
