//! Primes up to a bound (sieve of Eratosthenes) and the exponent of a prime
//! in a factorial (Legendre's formula).
use vstd::arithmetic::div_mod::*;
use vstd::arithmetic::mul::*;
use vstd::prelude::*;

verus! {

/// `d` divides `k`.
pub open spec fn divides(d: int, k: int) -> bool {
    k % d == 0
}

/// `p` is a prime number.
pub open spec fn is_prime(p: int) -> bool {
    p >= 2 && forall|d: int| 2 <= d < p ==> !#[trigger] divides(d, p)
}

/// `d` is a divisor of `k` with `2 <= d` and `d * d <= k`.
pub open spec fn small_divisor(k: int, d: int) -> bool {
    2 <= d && d * d <= k && divides(d, k)
}

/// `k` has a divisor `d` with `2 <= d < bound` and `d * d <= k`.
pub open spec fn has_small_divisor_below(k: int, bound: int) -> bool {
    exists|d: int| d < bound && #[trigger] small_divisor(k, d)
}

/// The largest argument of `sieve`: below it neither `i * i` nor `j + i`
/// can leave the range of `u64`.
pub const SIEVE_MAX: u64 = 0xFFFF_FFFE_0000_0000;

pub proof fn lemma_divides_trans(a: int, b: int, c: int)
    requires
        a > 0,
        b > 0,
        divides(a, b),
        divides(b, c),
    ensures
        divides(a, c),
{
    lemma_fundamental_div_mod(b, a);
    lemma_fundamental_div_mod(c, b);
    let x = b / a;
    let y = c / b;
    assert(c == a * (x * y)) by {
        lemma_mul_is_associative(a, x, y);
    }
    lemma_mod_multiples_basic(x * y, a);
    lemma_mul_is_commutative(a, x * y);
}

/// A number at least 2 is prime exactly when it has no divisor `d >= 2` with
/// `d * d` at most the number.
proof fn lemma_prime_iff_no_small_divisor(k: int)
    requires
        k >= 2,
    ensures
        is_prime(k) <==> !(exists|d: int| #[trigger] small_divisor(k, d)),
{
    if is_prime(k) {
        assert forall|d: int| !#[trigger] small_divisor(k, d) by {
            if small_divisor(k, d) {
                assert(d < k) by (nonlinear_arith)
                    requires
                        2 <= d,
                        d * d <= k,
                ;
                assert(!divides(d, k));
            }
        }
    } else {
        let d = choose|d: int| 2 <= d < k && #[trigger] divides(d, k);
        if d * d <= k {
            assert(small_divisor(k, d));
        } else {
            lemma_fundamental_div_mod(k, d);
            let e = k / d;
            assert(k == d * e);
            assert(e >= 2 && e * e <= k) by (nonlinear_arith)
                requires
                    k == d * e,
                    2 <= d < k,
                    d * d > k,
            ;
            assert(divides(e, k)) by {
                lemma_mod_multiples_basic(d, e);
                lemma_mul_is_commutative(d, e);
            }
            assert(small_divisor(k, e));
        }
    }
}

/// All primes up to `n`, in increasing order.
pub fn sieve(n: u64) -> (r: Vec<u64>)
    requires
        n < usize::MAX,
        n <= SIEVE_MAX,
    ensures
        forall|i: int| 0 <= i < r.len() ==> is_prime(#[trigger] r[i] as int) && r[i] <= n,
        forall|i: int, j: int| 0 <= i < j < r.len() ==> r[i] < r[j],
        forall|p: int| 2 <= p <= n && is_prime(p) ==> r@.contains(p as u64),
{
    if n < 2 {
        let r: Vec<u64> = Vec::new();
        proof {
            assert forall|p: int| 2 <= p <= n && is_prime(p) implies r@.contains(p as u64) by {}
        }
        return r;
    }
    let size: usize = (n + 1) as usize;
    let mut composite: Vec<bool> = vec![false; size];
    composite.set(0, true);
    composite.set(1, true);
    let mut i: u64 = 2;
    proof {
        assert forall|k: int| 0 <= k <= n implies #[trigger] composite@[k] == (k < 2
            || has_small_divisor_below(k, i as int)) by {
            if has_small_divisor_below(k, i as int) {
                let d = choose|d: int| d < i && #[trigger] small_divisor(k, d);
                assert(false);
            }
        }
    }
    while i * i <= n
        invariant
            2 <= i <= 0xFFFF_FFFF,
            i * i <= 0xFFFF_FFFE_0000_0001,
            n <= SIEVE_MAX,
            composite.len() == n + 1,
            forall|k: int| 0 <= k <= n ==> #[trigger] composite@[k] == (k < 2
                || has_small_divisor_below(k, i as int)),
        decreases n + 1 - i,
    {
        assert(i <= n) by (nonlinear_arith)
            requires
                2 <= i,
                i * i <= n,
        ;
        if !composite[i as usize] {
            let mut j: u64 = i * i;
            assert(divides(i as int, j as int)) by {
                lemma_mod_multiples_basic(i as int, i as int);
            }
            while j <= n
                invariant
                    2 <= i <= 0xFFFF_FFFF,
                    i * i <= n,
                    n <= SIEVE_MAX,
                    i * i <= j,
                    divides(i as int, j as int),
                    composite.len() == n + 1,
                    forall|k: int| 0 <= k <= n ==> #[trigger] composite@[k] == (k < 2
                        || has_small_divisor_below(k, i as int) || (i * i <= k < j && divides(
                        i as int,
                        k,
                    ))),
                decreases n + i - j,
            {
                composite.set(j as usize, true);
                proof {
                    assert(divides(i as int, j as int));
                    assert forall|k: int| 0 <= k <= n implies #[trigger] composite@[k] == (k < 2
                        || has_small_divisor_below(k, i as int) || (i * i <= k < j + i
                        && divides(i as int, k))) by {
                        if j < k < j + i {
                            assert(!divides(i as int, k)) by {
                                lemma_fundamental_div_mod(j as int, i as int);
                                lemma_fundamental_div_mod(k, i as int);
                                let q = j as int / i as int;
                                assert(k == i * q + (k - j));
                                lemma_mod_multiples_vanish(q, k - j, i as int);
                                lemma_small_mod((k - j) as nat, i as nat);
                            }
                        }
                    }
                    assert(divides(i as int, (j + i) as int)) by {
                        lemma_mod_adds(j as int, i as int, i as int);
                        lemma_mod_self_0(i as int);
                    }
                }
                j = j + i;
            }
            proof {
                assert forall|k: int| 0 <= k <= n implies #[trigger] composite@[k] == (k < 2
                    || has_small_divisor_below(k, i + 1)) by {
                    if has_small_divisor_below(k, i + 1) && !has_small_divisor_below(
                        k,
                        i as int,
                    ) {
                        let d = choose|d: int| d < i + 1 && #[trigger] small_divisor(k, d);
                        assert(d == i);
                    }
                    if i * i <= k && divides(i as int, k) {
                        assert(small_divisor(k, i as int));
                    }
                }
            }
        } else {
            proof {
                assert(has_small_divisor_below(i as int, i as int));
                let d = choose|d: int| d < i && #[trigger] small_divisor(i as int, d);
                assert forall|k: int| 0 <= k <= n implies #[trigger] composite@[k] == (k < 2
                    || has_small_divisor_below(k, i + 1)) by {
                    if small_divisor(k, i as int) {
                        lemma_divides_trans(d, i as int, k);
                        assert(d * d <= i * i) by (nonlinear_arith)
                            requires
                                2 <= d < i,
                        ;
                        assert(small_divisor(k, d));
                    }
                    if has_small_divisor_below(k, i + 1) && !has_small_divisor_below(
                        k,
                        i as int,
                    ) {
                        let e = choose|e: int| e < i + 1 && #[trigger] small_divisor(k, e);
                        assert(e == i);
                    }
                }
            }
        }
        assert((i + 1) * (i + 1) <= 0xFFFF_FFFE_0000_0001 && i + 1 <= 0xFFFF_FFFF)
            by (nonlinear_arith)
            requires
                2 <= i,
                i * i <= n,
                n <= SIEVE_MAX,
        ;
        i = i + 1;
    }
    proof {
        assert forall|k: int| 0 <= k <= n implies #[trigger] composite@[k] == !is_prime(k) by {
            if k >= 2 {
                lemma_prime_iff_no_small_divisor(k);
                if exists|d: int| #[trigger] small_divisor(k, d) {
                    let d = choose|d: int| #[trigger] small_divisor(k, d);
                    assert(d < i) by (nonlinear_arith)
                        requires
                            d * d <= k,
                            k <= n,
                            n < i * i,
                            2 <= d,
                            2 <= i,
                    ;
                }
            }
        }
    }
    let mut r: Vec<u64> = Vec::new();
    let mut k: u64 = 2;
    while k <= n
        invariant
            2 <= k <= n + 1,
            n <= SIEVE_MAX,
            composite.len() == n + 1,
            forall|m: int| 0 <= m <= n ==> #[trigger] composite@[m] == !is_prime(m),
            forall|a: int| 0 <= a < r.len() ==> is_prime(#[trigger] r[a] as int) && r[a] < k,
            forall|a: int, b: int| 0 <= a < b < r.len() ==> r[a] < r[b],
            forall|p: int| 2 <= p < k && is_prime(p) ==> r@.contains(p as u64),
        decreases n + 1 - k,
    {
        if !composite[k as usize] {
            let ghost old_r = r@;
            r.push(k);
            proof {
                assert forall|p: int| 2 <= p < k + 1 && is_prime(p) implies r@.contains(
                    p as u64,
                ) by {
                    if p == k {
                        assert(r@[r.len() - 1] == k);
                    } else {
                        assert(old_r.contains(p as u64));
                        let a = choose|a: int| 0 <= a < old_r.len() && old_r[a] == p as u64;
                        assert(r@[a] == p as u64);
                    }
                }
            }
        }
        k = k + 1;
    }
    r
}

/// `floor(n / pk) + floor(n / (pk * p)) + ...`, over the powers of `p` from
/// `pk` up to `n`.
pub open spec fn legendre_from(n: nat, p: nat, pk: nat) -> nat
    decreases n + 1 - pk,
{
    if pk > n || p < 2 || pk == 0 {
        0
    } else {
        proof {
            assert(pk * p >= pk * 2) by (nonlinear_arith)
                requires
                    p >= 2,
            ;
        }
        if pk * p > n {
            n / pk
        } else {
            n / pk + legendre_from(n, p, pk * p)
        }
    }
}

/// Legendre's sum `floor(n / p) + floor(n / p^2) + ...`: for a prime `p`, the
/// exponent of `p` in `n!`.
pub open spec fn legendre_spec(n: nat, p: nat) -> nat {
    legendre_from(n, p, p)
}

/// Each term halves at least, so the sum from `pk` on is at most twice its
/// first term.
proof fn lemma_legendre_from_bound(n: nat, p: nat, pk: nat)
    requires
        p >= 2,
        pk >= 1,
    ensures
        legendre_from(n, p, pk) <= 2 * (n / pk),
    decreases n + 1 - pk,
{
    if pk <= n {
        assert(pk * p >= pk * 2) by (nonlinear_arith)
            requires
                p >= 2,
        ;
        if pk * p <= n {
            lemma_legendre_from_bound(n, p, pk * p);
        }
        lemma_div_denominator(n as int, pk as int, p as int);
        let q = n / pk;
        assert(q / p <= q / 2) by {
            lemma_div_is_ordered_by_denominator(q as int, 2, p as int);
        }
    }
}

/// The exponent of any `p >= 2` in `n!` is at most `n`.
pub proof fn lemma_legendre_at_most_n(n: nat, p: nat)
    requires
        p >= 2,
    ensures
        legendre_spec(n, p) <= n,
{
    lemma_legendre_from_bound(n, p, p);
    lemma_div_is_ordered_by_denominator(n as int, 2, p as int);
}

/// Legendre's sum does not grow with the base: for `2 <= q <= p` and
/// starting powers `qk <= pk`, the sum over the powers of `p` is at most the
/// one over the powers of `q`.
pub proof fn lemma_legendre_from_monotone(n: nat, p: nat, pk: nat, q: nat, qk: nat)
    requires
        2 <= q <= p,
        1 <= qk <= pk,
    ensures
        legendre_from(n, p, pk) <= legendre_from(n, q, qk),
    decreases n + 1 - qk,
{
    if pk <= n {
        lemma_div_is_ordered_by_denominator(n as int, qk as int, pk as int);
        assert(qk * q <= pk * p && qk * q >= qk * 2) by (nonlinear_arith)
            requires
                2 <= q <= p,
                1 <= qk <= pk,
        ;
        if qk * q <= n {
            lemma_legendre_from_monotone(n, p, pk * p, q, qk * q);
        }
    }
}

/// The exponent of 2 in `n!` is at least `floor(n / 2)`.
pub proof fn lemma_legendre_two_lower(n: nat)
    ensures
        legendre_spec(n, 2) >= n / 2,
{
}

/// The exponent of the prime `p` in `n!`, by Legendre's formula.
pub fn legendre(n: u64, p: u64) -> (r: u32)
    requires
        p >= 2,
        legendre_spec(n as nat, p as nat) <= u32::MAX,
    ensures
        r == legendre_spec(n as nat, p as nat),
{
    let mut exp: u32 = 0;
    let mut pk: u64 = p;
    while pk <= n
        invariant
            p >= 2,
            pk >= 1,
            exp + legendre_from(n as nat, p as nat, pk as nat) == legendre_spec(n as nat, p as nat),
            legendre_spec(n as nat, p as nat) <= u32::MAX,
        decreases u64::MAX - pk,
    {
        exp = exp + (n / pk) as u32;
        assert(pk * p >= pk * 2) by (nonlinear_arith)
            requires
                p >= 2,
        ;
        pk = match pk.checked_mul(p) {
            Some(v) => v,
            None => {
                return exp;
            },
        };
    }
    exp
}

} // verus!
