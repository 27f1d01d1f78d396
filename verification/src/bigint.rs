//! Signed big integers: a sign and a `Natural` magnitude, with the exact
//! operations the calculator performs on integer values.
use crate::natural::{decimal, digit_char, Natural};
use crate::token::CalcError;
use vstd::arithmetic::div_mod::*;
use vstd::arithmetic::mul::*;
use vstd::arithmetic::power::*;
use vstd::prelude::*;

verus! {

/// The largest exponent of an integer power.
pub const POW_LIMIT: u32 = 4_000_000;

/// `|x|`.
pub open spec fn abs(x: int) -> nat {
    if x < 0 {
        (-x) as nat
    } else {
        x as nat
    }
}

/// The remainder of `a / b` with the quotient rounded toward zero: it has the
/// sign of `a` and a magnitude below `|b|`.
pub open spec fn trunc_rem(a: int, b: int) -> int {
    if a < 0 {
        -((abs(a) % abs(b)) as int)
    } else {
        (abs(a) % abs(b)) as int
    }
}

/// The decimal representation of an integer, with a leading `-` when it is
/// negative.
pub open spec fn signed_decimal(x: int) -> Seq<char> {
    if x < 0 {
        seq!['-'] + decimal(abs(x))
    } else {
        decimal(abs(x))
    }
}

/// The value of a string of decimal digits (0 for the empty string).
pub open spec fn digits_value(s: Seq<char>) -> int
    decreases s.len(),
{
    if s.len() == 0 {
        0
    } else {
        digits_value(s.drop_last()) * 10 + (s.last() as int - '0' as int)
    }
}

/// The value that a decimal text denotes: digits, after a `-` when there is
/// one.
pub open spec fn decimal_value(s: Seq<char>) -> int {
    if s.len() > 0 && s[0] == '-' {
        -digits_value(s.skip(1))
    } else {
        digits_value(s)
    }
}

/// A text of decimal digits in canonical form: at least one digit, all
/// digits, and no leading zero unless the text is `0`.
pub open spec fn canonical_digits(s: Seq<char>) -> bool {
    &&& s.len() > 0
    &&& forall|i: int| 0 <= i < s.len() ==> '0' <= #[trigger] s[i] <= '9'
    &&& (s.len() > 1 ==> s[0] != '0')
}

proof fn lemma_decimal_reads_back(n: nat)
    ensures
        digits_value(decimal(n)) == n,
        canonical_digits(decimal(n)),
        n > 0 ==> decimal(n)[0] != '0',
    decreases n,
{
    let k = n % 10;
    assert(digit_char(k) as int == k + 48);
    assert('0' as int == 48);
    if n >= 10 {
        lemma_decimal_reads_back(n / 10);
        let d = decimal(n);
        assert(d.drop_last() == decimal(n / 10));
        assert(d.last() == digit_char(k));
        assert(digits_value(d) == digits_value(d.drop_last()) * 10 + (d.last() as int - '0' as int));
        assert(d[0] == decimal(n / 10)[0]);
        assert forall|i: int| 0 <= i < d.len() implies '0' <= #[trigger] d[i] <= '9' by {
            if i < d.len() - 1 {
                assert(d[i] == decimal(n / 10)[i]);
            }
        }
    } else {
        let d = decimal(n);
        assert(d.drop_last().len() == 0);
        assert(d.last() == digit_char(n));
        assert(digits_value(d) == digits_value(d.drop_last()) * 10 + (d.last() as int - '0' as int));
    }
}

/// The text of an integer reads back as the same integer: `signed_decimal`
/// gives a canonical decimal text whose value is `x`, with a `-` exactly
/// when `x` is negative.
pub proof fn lemma_signed_decimal_round_trip(x: int)
    ensures
        decimal_value(signed_decimal(x)) == x,
        x < 0 ==> signed_decimal(x)[0] == '-' && canonical_digits(signed_decimal(x).skip(1)),
        x >= 0 ==> canonical_digits(signed_decimal(x)),
{
    lemma_decimal_reads_back(abs(x));
    if x < 0 {
        assert(signed_decimal(x).skip(1) == decimal(abs(x)));
    } else {
        assert('0' <= decimal(abs(x))[0] <= '9');
    }
}

/// An integer of any size.
#[derive(Debug)]
pub struct BigInt {
    negative: bool,
    magnitude: Natural,
}

impl View for BigInt {
    type V = int;

    closed spec fn view(&self) -> int {
        if self.negative {
            -(self.magnitude@ as int)
        } else {
            self.magnitude@ as int
        }
    }
}

/// `(-m)^e` is `m^e` for even `e` and `-(m^e)` for odd `e`.
proof fn lemma_pow_neg(m: int, e: nat)
    ensures
        pow(-m, e) == if e % 2 == 1 {
            -pow(m, e)
        } else {
            pow(m, e)
        },
    decreases e,
{
    reveal(pow);
    if e > 0 {
        lemma_pow_neg(m, (e - 1) as nat);
        lemma_mul_unary_negation(m, pow(m, (e - 1) as nat));
        lemma_mul_unary_negation(-m, pow(m, (e - 1) as nat));
        lemma_mul_unary_negation(m, -pow(m, (e - 1) as nat));
    }
}

impl BigInt {
    #[verifier::type_invariant]
    spec fn nonzero_when_negative(self) -> bool {
        self.negative ==> self.magnitude@ > 0
    }

    /// Builds `-m` when `negative` holds and `m` otherwise.
    fn with_sign(negative: bool, m: Natural) -> (r: BigInt)
        ensures
            r@ == if negative {
                -(m@ as int)
            } else {
                m@ as int
            },
    {
        let z = m.is_zero();
        BigInt { negative: negative && !z, magnitude: m }
    }

    /// The integer with the value of `n`.
    pub fn from_natural(n: Natural) -> (r: BigInt)
        ensures
            r@ == n@,
    {
        BigInt::with_sign(false, n)
    }

    /// The integer with value `x`.
    pub fn from_i64(x: i64) -> (r: BigInt)
        ensures
            r@ == x,
    {
        if x < 0 {
            let m: u64 = (-(x as i128)) as u64;
            BigInt::with_sign(true, Natural::from_u64(m))
        } else {
            BigInt::with_sign(false, Natural::from_u64(x as u64))
        }
    }

    /// Whether the value is below zero.
    pub fn is_negative(&self) -> (r: bool)
        ensures
            r == (self@ < 0),
    {
        proof {
            use_type_invariant(self);
        }
        self.negative
    }

    /// Whether the value is zero.
    pub fn is_zero(&self) -> (r: bool)
        ensures
            r == (self@ == 0),
    {
        self.magnitude.is_zero()
    }

    /// The absolute value.
    pub fn magnitude(&self) -> (r: &Natural)
        ensures
            r@ == abs(self@),
    {
        &self.magnitude
    }

    /// An integer with the same value.
    pub fn copy(&self) -> (r: BigInt)
        ensures
            r@ == self@,
    {
        proof {
            use_type_invariant(self);
        }
        BigInt::with_sign(self.negative, self.magnitude.copy())
    }

    /// `-self`.
    pub fn neg(&self) -> (r: BigInt)
        ensures
            r@ == -self@,
    {
        proof {
            use_type_invariant(self);
        }
        BigInt::with_sign(!self.negative, self.magnitude.copy())
    }

    /// `self + other`.
    pub fn add(&self, other: &BigInt) -> (r: BigInt)
        ensures
            r@ == self@ + other@,
    {
        proof {
            use_type_invariant(self);
            use_type_invariant(other);
        }
        if self.negative == other.negative {
            BigInt::with_sign(self.negative, self.magnitude.add(&other.magnitude))
        } else {
            let (d, less) = self.magnitude.abs_diff(&other.magnitude);
            // The sign of the operand with the larger magnitude wins.
            let negative = if less {
                other.negative
            } else {
                self.negative
            };
            BigInt::with_sign(negative, d)
        }
    }

    /// `self - other`.
    pub fn sub(&self, other: &BigInt) -> (r: BigInt)
        ensures
            r@ == self@ - other@,
    {
        self.add(&other.neg())
    }

    /// `self * other`.
    pub fn mul(&self, other: &BigInt) -> (r: BigInt)
        ensures
            r@ == self@ * other@,
    {
        proof {
            use_type_invariant(self);
            use_type_invariant(other);
            let a = self.magnitude@ as int;
            let b = other.magnitude@ as int;
            lemma_mul_unary_negation(a, b);
            lemma_mul_unary_negation(b, a);
            lemma_mul_is_commutative(a, b);
            lemma_mul_unary_negation(-a, b);
            lemma_mul_unary_negation(b, -a);
        }
        BigInt::with_sign(self.negative != other.negative, self.magnitude.mul(&other.magnitude))
    }

    /// The exact quotient `self / other` when `other` divides `self`, and
    /// `None` when it does not.
    pub fn div_exact(&self, other: &BigInt) -> (r: Option<BigInt>)
        requires
            other@ != 0,
        ensures
            r is Some <==> abs(self@) % abs(other@) == 0,
            r matches Some(q) ==> q@ * other@ == self@,
    {
        proof {
            use_type_invariant(self);
            use_type_invariant(other);
        }
        let (q, m) = self.magnitude.div_rem(&other.magnitude);
        proof {
            lemma_fundamental_div_mod(abs(self@) as int, abs(other@) as int);
        }
        if m.is_zero() {
            let r = BigInt::with_sign(self.negative != other.negative, q);
            proof {
                let qa = (abs(self@) / abs(other@)) as int;
                let b = other.magnitude@ as int;
                assert(abs(self@) == b * qa);
                lemma_mul_is_commutative(b, qa);
                lemma_mul_unary_negation(qa, b);
                lemma_mul_unary_negation(b, qa);
                lemma_mul_unary_negation(-qa, b);
                lemma_mul_unary_negation(qa, -b);
                lemma_mul_unary_negation(-qa, -b);
            }
            Some(r)
        } else {
            None
        }
    }

    /// The remainder of `self / other`, with the quotient rounded toward
    /// zero.
    pub fn rem(&self, other: &BigInt) -> (r: BigInt)
        requires
            other@ != 0,
        ensures
            r@ == trunc_rem(self@, other@),
    {
        proof {
            use_type_invariant(self);
        }
        let (_q, m) = self.magnitude.div_rem(&other.magnitude);
        BigInt::with_sign(self.negative, m)
    }

    /// `self` to the power `exp`, an error when `exp` is above `POW_LIMIT`.
    pub fn checked_pow(&self, exp: &BigInt) -> (r: Result<BigInt, CalcError>)
        requires
            exp@ >= 0,
        ensures
            r is Err <==> exp@ > POW_LIMIT,
            r matches Err(e) ==> e == CalcError::ExponentTooLarge,
            r matches Ok(v) ==> v@ == pow(self@, exp@ as nat),
    {
        proof {
            use_type_invariant(self);
        }
        match exp.magnitude.to_u32() {
            Some(e) => {
                if e > POW_LIMIT {
                    return Err(CalcError::ExponentTooLarge);
                }
                let odd = e % 2 == 1;
                let p = self.magnitude.pow(e);
                proof {
                    lemma_pow_neg(self.magnitude@ as int, e as nat);
                }
                Ok(BigInt::with_sign(self.negative && odd, p))
            },
            None => Err(CalcError::ExponentTooLarge),
        }
    }

    /// The decimal representation, with a leading `-` when negative.
    pub fn to_decimal(&self) -> (r: String)
        ensures
            r@ == signed_decimal(self@),
            decimal_value(r@) == self@,
    {
        proof {
            lemma_signed_decimal_round_trip(self@);
            use_type_invariant(self);
        }
        let digits = self.magnitude.to_decimal();
        if self.negative {
            let mut s = String::from_str("-");
            proof {
                reveal_strlit("-");
            }
            s.append(digits.as_str());
            assert(s@ =~= signed_decimal(self@));
            s
        } else {
            digits
        }
    }
}

} // verus!
