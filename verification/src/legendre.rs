//! Legendre's theorem: `n!` is the product, over the primes `p <= n`, of `p`
//! raised to `floor(n/p) + floor(n/p^2) + ...`. The proof goes through
//! Euclid's lemma, the multiplicity of a prime in a product, and the unique
//! prime factorization of each `m <= n`.
use crate::factorial::{factorial_spec, prime_power_product, prime_powers_up_to};
use crate::primes::{divides, is_prime, legendre_from, legendre_spec, lemma_divides_trans};
use vstd::arithmetic::div_mod::*;
use vstd::arithmetic::mul::*;
use vstd::arithmetic::power::*;
use vstd::prelude::*;

verus! {

/// The greatest common divisor, by Euclid's algorithm.
pub open spec fn gcd(a: nat, b: nat) -> nat
    decreases b,
{
    if b == 0 {
        a
    } else {
        gcd(b, a % b)
    }
}

/// `p` divides `x - m * y` when it divides `x` and `y`.
proof fn lemma_divides_sub_multiple(p: int, x: int, y: int, m: int)
    requires
        p > 0,
        divides(p, x),
        divides(p, y),
    ensures
        divides(p, x - m * y),
{
    lemma_fundamental_div_mod(x, p);
    lemma_fundamental_div_mod(y, p);
    let u = x / p;
    let w = y / p;
    assert(m * y == p * (m * w)) by {
        lemma_mul_is_associative(m, p, w);
        lemma_mul_is_commutative(m, p);
        lemma_mul_is_associative(p, m, w);
    }
    assert(x - m * y == p * (u - m * w)) by {
        lemma_mul_is_distributive_sub(p, u, m * w);
    }
    lemma_mod_multiples_basic(u - m * w, p);
    lemma_mul_is_commutative(p, u - m * w);
}

/// `gcd(a, b)` divides `a` and `b`.
proof fn lemma_gcd_divides(a: nat, b: nat)
    requires
        a > 0,
    ensures
        gcd(a, b) > 0,
        divides(gcd(a, b) as int, a as int),
        divides(gcd(a, b) as int, b as int),
    decreases b,
{
    if b == 0 {
        lemma_mod_self_0(a as int);
        lemma_small_mod(0, a);
    } else {
        lemma_mod_bound(a as int, b as int);
        if a % b == 0 {
            assert(gcd(b, 0) == b);
            lemma_mod_self_0(b as int);
            lemma_small_mod(0, b);
            assert(gcd(a, b) == b);
        } else {
            lemma_gcd_divides(b, a % b);
            let g = gcd(a, b);
            lemma_fundamental_div_mod(a as int, b as int);
            // a == b * (a / b) + a % b, and g divides b and a % b
            lemma_divides_sub_multiple(g as int, (a % b) as int, b as int, -(a / b) as int);
            assert((a % b) as int - (-(a / b) as int) * (b as int) == a) by {
                lemma_mul_unary_negation((a / b) as int, b as int);
                lemma_mul_is_commutative((a / b) as int, b as int);
            }
        }
    }
}

/// When `p` divides `a * c` and `b * c`, it divides `gcd(a, b) * c`.
proof fn lemma_gcd_keeps_divisor(p: int, a: nat, b: nat, c: int)
    requires
        p > 0,
        divides(p, a * c),
        divides(p, b * c),
    ensures
        divides(p, gcd(a, b) * c),
    decreases b,
{
    if b > 0 {
        lemma_fundamental_div_mod(a as int, b as int);
        let q = (a / b) as int;
        let r = (a % b) as int;
        // r * c == a * c - q * (b * c)
        assert(r * c == a * c - q * (b * c)) by {
            assert(r == a - b * q);
            lemma_mul_is_distributive_sub_other_way(c, a as int, b * q);
            lemma_mul_is_associative(b as int, q, c);
            lemma_mul_is_commutative(b as int, q);
            lemma_mul_is_associative(q, b as int, c);
        }
        lemma_divides_sub_multiple(p, a * c, b * c, q);
        lemma_gcd_keeps_divisor(p, b, (a % b) as nat, c);
    }
}

/// A positive divisor of `n > 0` is at most `n`.
proof fn lemma_divisor_at_most(d: int, n: int)
    requires
        d > 0,
        n > 0,
        divides(d, n),
    ensures
        d <= n,
{
    lemma_fundamental_div_mod(n, d);
    let k = n / d;
    assert(n == d * k);
    if k <= 0 {
        lemma_mul_nonpositive(d, k);
    } else {
        lemma_mul_increases(k, d);
        lemma_mul_is_commutative(k, d);
    }
}

proof fn lemma_mul_nonpositive(d: int, k: int)
    requires
        d > 0,
        k <= 0,
    ensures
        d * k <= 0,
{
    lemma_mul_inequality(k, 0, d);
    lemma_mul_is_commutative(k, d);
}

/// Euclid's lemma: a prime that divides `a * b` and not `a` divides `b`.
pub proof fn lemma_euclid(p: int, a: int, b: int)
    requires
        is_prime(p),
        a > 0,
        divides(p, a * b),
        !divides(p, a),
    ensures
        divides(p, b),
{
    lemma_gcd_divides(p as nat, a as nat);
    let g = gcd(p as nat, a as nat);
    lemma_divisor_at_most(g as int, p);
    if g >= 2 {
        if g < p {
            assert(!divides(g as int, p));
        }
        assert(g == p);
        assert(false);
    }
    assert(g == 1);
    assert(divides(p, p * b)) by {
        lemma_mod_multiples_basic(b, p);
        lemma_mul_is_commutative(b, p);
    }
    lemma_gcd_keeps_divisor(p, p as nat, a as nat, b);
}

/// The multiplicity of `p` in `n > 0`: how many times `p` divides it.
pub open spec fn multiplicity(n: nat, p: nat) -> nat
    decreases n,
{
    if n > 0 && p >= 2 && n % p == 0 {
        proof {
            lemma_div_decreases(n as int, p as int);
        }
        1 + multiplicity(n / p, p)
    } else {
        0
    }
}

/// `(p * a) / p == a` and `p` divides `p * a`.
proof fn lemma_div_mul_cancel(p: int, a: int)
    requires
        p > 0,
    ensures
        (p * a) / p == a,
        (p * a) % p == 0,
{
    lemma_div_multiples_vanish(a, p);
    lemma_mod_multiples_basic(a, p);
    lemma_mul_is_commutative(a, p);
}

/// The multiplicity of a prime in a product is the sum of its
/// multiplicities in the factors.
pub proof fn lemma_multiplicity_mul(a: nat, b: nat, p: nat)
    requires
        is_prime(p as int),
        a >= 1,
        b >= 1,
    ensures
        multiplicity(a * b, p) == multiplicity(a, p) + multiplicity(b, p),
    decreases a + b,
{
    lemma_mul_strictly_positive(a as int, b as int);
    if a % p == 0 {
        lemma_fundamental_div_mod(a as int, p as int);
        let a1 = a / p;
        assert(a == p * a1);
        assert(a1 >= 1) by {
            if a1 == 0 {
                lemma_mul_basics(p as int);
            }
        }
        lemma_div_decreases(a as int, p as int);
        assert(a * b == p * (a1 * b)) by {
            lemma_mul_is_associative(p as int, a1 as int, b as int);
        }
        lemma_div_mul_cancel(p as int, (a1 * b) as int);
        lemma_multiplicity_mul(a1, b, p);
    } else if b % p == 0 {
        lemma_fundamental_div_mod(b as int, p as int);
        let b1 = b / p;
        assert(b == p * b1);
        assert(b1 >= 1) by {
            if b1 == 0 {
                lemma_mul_basics(p as int);
            }
        }
        lemma_div_decreases(b as int, p as int);
        assert(a * b == p * (a * b1)) by {
            lemma_mul_is_associative(a as int, p as int, b1 as int);
            lemma_mul_is_commutative(a as int, p as int);
            lemma_mul_is_associative(p as int, a as int, b1 as int);
        }
        lemma_div_mul_cancel(p as int, (a * b1) as int);
        lemma_multiplicity_mul(a, b1, p);
    } else {
        if (a * b) % p == 0 {
            lemma_euclid(p as int, a as int, b as int);
        }
    }
}

/// The product of `p^e(p)` over the primes `p <= m`.
pub open spec fn prime_product(e: spec_fn(nat) -> nat, m: nat) -> nat
    decreases m,
{
    if m < 2 {
        1
    } else {
        prime_product(e, (m - 1) as nat) * (if is_prime(m as int) {
            pow(m as int, e(m)) as nat
        } else {
            1
        })
    }
}

proof fn lemma_prime_product_congruent(e1: spec_fn(nat) -> nat, e2: spec_fn(nat) -> nat, m: nat)
    requires
        forall|p: nat| p <= m && is_prime(p as int) ==> e1(p) == e2(p),
    ensures
        prime_product(e1, m) == prime_product(e2, m),
    decreases m,
{
    if m >= 2 {
        lemma_prime_product_congruent(e1, e2, (m - 1) as nat);
    }
}

proof fn lemma_prime_product_sum(
    e1: spec_fn(nat) -> nat,
    e2: spec_fn(nat) -> nat,
    e: spec_fn(nat) -> nat,
    m: nat,
)
    requires
        forall|p: nat| #[trigger] e(p) == e1(p) + e2(p),
    ensures
        prime_product(e, m) == prime_product(e1, m) * prime_product(e2, m),
    decreases m,
{
    if m >= 2 {
        lemma_prime_product_sum(e1, e2, e, (m - 1) as nat);
        let a = prime_product(e1, (m - 1) as nat);
        let b = prime_product(e2, (m - 1) as nat);
        if is_prime(m as int) {
            lemma_pow_adds(m as int, e1(m), e2(m));
            lemma_pow_positive(m as int, e1(m));
            lemma_pow_positive(m as int, e2(m));
            let x = pow(m as int, e1(m));
            let y = pow(m as int, e2(m));
            assert((a * b) * (x * y) == (a * x) * (b * y)) by (nonlinear_arith);
            assert(e(m) == e1(m) + e2(m));
            assert(pow(m as int, e(m)) == x * y);
        }
        assert(prime_product(e, m) == prime_product(e, (m - 1) as nat) * (if is_prime(m as int) {
            pow(m as int, e(m)) as nat
        } else {
            1
        }));
        assert(prime_product(e1, m) == prime_product(e1, (m - 1) as nat) * (if is_prime(m as int) {
            pow(m as int, e1(m)) as nat
        } else {
            1
        }));
        assert(prime_product(e2, m) == prime_product(e2, (m - 1) as nat) * (if is_prime(m as int) {
            pow(m as int, e2(m)) as nat
        } else {
            1
        }));
    } else {
        assert(prime_product(e, m) == 1);
        assert(prime_product(e1, m) == 1);
        assert(prime_product(e2, m) == 1);
    }
}

proof fn lemma_prime_product_zero(e: spec_fn(nat) -> nat, m: nat)
    requires
        forall|p: nat| p <= m && is_prime(p as int) ==> e(p) == 0,
    ensures
        prime_product(e, m) == 1,
    decreases m,
{
    if m >= 2 {
        lemma_prime_product_zero(e, (m - 1) as nat);
        if is_prime(m as int) {
            lemma_pow0(m as int);
            assert(e(m) == 0);
            assert(pow(m as int, e(m)) == 1);
        }
        assert(prime_product(e, m) == prime_product(e, (m - 1) as nat) * (if is_prime(m as int) {
            pow(m as int, e(m)) as nat
        } else {
            1
        }));
    }
}

proof fn lemma_prime_product_single(e: spec_fn(nat) -> nat, q: nat, m: nat)
    requires
        is_prime(q as int),
        forall|p: nat| p <= m && is_prime(p as int) ==> e(p) == if p == q {
            1nat
        } else {
            0nat
        },
    ensures
        prime_product(e, m) == if q <= m {
            q
        } else {
            1
        },
    decreases m,
{
    if m >= 2 {
        lemma_prime_product_single(e, q, (m - 1) as nat);
        let prev = prime_product(e, (m - 1) as nat);
        let f: nat = if is_prime(m as int) {
            pow(m as int, e(m)) as nat
        } else {
            1
        };
        assert(prime_product(e, m) == prev * f);
        if is_prime(m as int) {
            if m == q {
                assert(e(m) == 1);
                lemma_pow1(m as int);
            } else {
                assert(e(m) == 0);
                lemma_pow0(m as int);
            }
        }
        assert(f == if m == q {
            q
        } else {
            1
        });
        if m == q {
            assert(prev == 1);
            assert(prev * f == q) by (nonlinear_arith)
                requires
                    prev == 1,
                    f == q,
            ;
        } else if q < m {
            assert(prev == q);
            assert(f == 1);
            assert(prev * f == q) by (nonlinear_arith)
                requires
                    prev == q,
                    f == 1,
            ;
        } else {
            assert(prev * f == 1);
        }
    } else {
        assert(prime_product(e, m) == 1);
        assert(q >= 2);
    }
}

/// Every `n >= 1` is the product of its primes raised to their
/// multiplicities.
pub proof fn lemma_factorization(n: nat, m: nat)
    requires
        1 <= n <= m,
    ensures
        prime_product(|p: nat| multiplicity(n, p), m) == n,
    decreases n,
{
    let e = |p: nat| multiplicity(n, p);
    if n == 1 {
        assert forall|p: nat| p <= m && is_prime(p as int) implies e(p) == 0 by {
            lemma_small_mod(1, p);
        }
        lemma_prime_product_zero(e, m);
    } else if is_prime(n as int) {
        assert forall|p: nat| p <= m && is_prime(p as int) implies e(p) == if p == n {
            1nat
        } else {
            0nat
        } by {
            if p == n {
                lemma_mod_self_0(n as int);
                lemma_div_mul_cancel(n as int, 1);
                lemma_small_mod(1, n);
                assert(multiplicity(1, n) == 0);
            } else if p < n {
                assert(!divides(p as int, n as int));
            } else {
                lemma_small_mod(n, p);
            }
        }
        lemma_prime_product_single(e, n, m);
    } else {
        let d = choose|d: int| 2 <= d < n && #[trigger] divides(d, n as int);
        lemma_fundamental_div_mod(n as int, d);
        let k = n as int / d;
        assert(n == d * k);
        assert(2 <= k < n) by (nonlinear_arith)
            requires
                n == d * k,
                2 <= d < n,
        ;
        let ed = |p: nat| multiplicity(d as nat, p);
        let ek = |p: nat| multiplicity(k as nat, p);
        let es = |p: nat| ed(p) + ek(p);
        lemma_factorization(d as nat, m);
        lemma_factorization(k as nat, m);
        assert forall|p: nat| p <= m && is_prime(p as int) implies e(p) == es(p) by {
            lemma_multiplicity_mul(d as nat, k as nat, p);
        }
        lemma_prime_product_congruent(e, es, m);
        lemma_prime_product_sum(ed, ek, es, m);
    }
}

/// How many of `pk, pk * p, pk * p^2, ...` up to `n` divide `n`.
pub open spec fn dividing_powers_from(n: nat, p: nat, pk: nat) -> nat
    decreases n + 1 - pk,
{
    if pk > n || p < 2 || pk == 0 {
        0
    } else {
        proof {
            assert(pk * p >= pk * 2) by (nonlinear_arith)
                requires
                    p >= 2,
            ;
        }
        (if n % pk == 0 {
            1nat
        } else {
            0nat
        }) + if pk * p > n {
            0
        } else {
            dividing_powers_from(n, p, pk * p)
        }
    }
}

proof fn lemma_step_grows(pk: nat, p: nat)
    requires
        pk >= 1,
        p >= 2,
    ensures
        pk * p >= 2 * pk,
{
    assert(pk * p >= pk * 2) by (nonlinear_arith)
        requires
            p >= 2,
    ;
}

/// Going from `n - 1` to `n`, `floor(n / q)` grows by one exactly when `q`
/// divides `n`.
proof fn lemma_floor_step(n: nat, q: nat)
    requires
        n >= 1,
        q >= 1,
    ensures
        n / q == (n - 1) as nat / q + if n % q == 0 {
            1nat
        } else {
            0nat
        },
{
    let m = (n - 1) as nat;
    lemma_fundamental_div_mod(m as int, q as int);
    lemma_mod_bound(m as int, q as int);
    let a = m / q;
    let b = m % q;
    if b + 1 == q {
        assert(n == q * (a + 1)) by {
            lemma_mul_is_distributive_add(q as int, a as int, 1);
        }
        lemma_mul_is_commutative(q as int, (a + 1) as int);
        lemma_fundamental_div_mod_converse(n as int, q as int, (a + 1) as int, 0);
    } else {
        lemma_mul_is_commutative(q as int, a as int);
        lemma_fundamental_div_mod_converse(n as int, q as int, a as int, (b + 1) as int);
    }
}

/// Legendre's sum for `n` is the sum for `n - 1` plus the number of powers
/// of `p` (from `pk` on) that divide `n`.
proof fn lemma_legendre_step(n: nat, p: nat, pk: nat)
    requires
        n >= 1,
        p >= 2,
        pk >= 1,
    ensures
        legendre_from(n, p, pk) == legendre_from((n - 1) as nat, p, pk) + dividing_powers_from(
            n,
            p,
            pk,
        ),
    decreases n + 1 - pk,
{
    if pk <= n {
        lemma_step_grows(pk, p);
        lemma_floor_step(n, pk);
        if pk * p <= n {
            lemma_legendre_step(n, p, pk * p);
        }
        if pk == n {
            lemma_mod_self_0(n as int);
            lemma_div_mul_cancel(n as int, 1);
        }
        if pk * p > (n - 1) as nat {
            assert(legendre_from((n - 1) as nat, p, pk * p) == 0);
        }
    }
}

/// `(p * m) % (p * r) == p * (m % r)`: scaling keeps divisibility.
proof fn lemma_scaled_divides(p: nat, m: nat, r: nat)
    requires
        p >= 1,
        r >= 1,
    ensures
        ((p * m) % (p * r) == 0) == (m % r == 0),
{
    lemma_fundamental_div_mod(m as int, r as int);
    lemma_mod_bound(m as int, r as int);
    let q = m / r;
    let s = m % r;
    assert(p * m == (p * r) * q + p * s) by {
        lemma_mul_is_distributive_add(p as int, (r * q) as int, s as int);
        lemma_mul_is_associative(p as int, r as int, q as int);
    }
    assert(p * s < p * r) by {
        lemma_mul_strict_inequality(s as int, r as int, p as int);
        lemma_mul_is_commutative(s as int, p as int);
        lemma_mul_is_commutative(r as int, p as int);
    }
    lemma_mul_strictly_positive(p as int, r as int);
    lemma_fundamental_div_mod_converse((p * m) as int, (p * r) as int, q as int, (p * s) as int);
    if s != 0 {
        lemma_mul_strictly_positive(p as int, s as int);
    } else {
        lemma_mul_basics(p as int);
    }
}

proof fn lemma_scaled_order(p: nat, m: nat, r: nat)
    requires
        p >= 1,
    ensures
        (p * r > p * m) == (r > m),
{
    if r > m {
        lemma_mul_strict_inequality(m as int, r as int, p as int);
        lemma_mul_is_commutative(m as int, p as int);
        lemma_mul_is_commutative(r as int, p as int);
    } else {
        lemma_mul_inequality(r as int, m as int, p as int);
        lemma_mul_is_commutative(m as int, p as int);
        lemma_mul_is_commutative(r as int, p as int);
    }
}

/// Counting the powers of `p` from `p * r` that divide `p * m` is counting
/// those from `r` that divide `m`.
proof fn lemma_dividing_powers_scaled(m: nat, p: nat, r: nat)
    requires
        m >= 1,
        p >= 2,
        r >= 1,
    ensures
        dividing_powers_from(p * m, p, p * r) == dividing_powers_from(m, p, r),
    decreases m + 1 - r,
{
    lemma_scaled_order(p, m, r);
    lemma_mul_strictly_positive(p as int, r as int);
    if r <= m {
        lemma_scaled_divides(p, m, r);
        lemma_step_grows(r, p);
        assert((p * r) * p == p * (r * p)) by {
            lemma_mul_is_associative(p as int, r as int, p as int);
        }
        lemma_scaled_order(p, m, r * p);
        if r * p <= m {
            lemma_dividing_powers_scaled(m, p, r * p);
        }
    }
}

/// When `p` does not divide `n`, no multiple of `p` does.
proof fn lemma_dividing_powers_none(n: nat, p: nat, pk: nat)
    requires
        n >= 1,
        p >= 2,
        pk >= 1,
        n % p != 0,
        pk % p == 0,
    ensures
        dividing_powers_from(n, p, pk) == 0,
    decreases n + 1 - pk,
{
    if pk <= n {
        if n % pk == 0 {
            lemma_divides_trans(p as int, pk as int, n as int);
        }
        lemma_step_grows(pk, p);
        if pk * p <= n {
            lemma_mod_multiples_basic(pk as int, p as int);
            lemma_dividing_powers_none(n, p, pk * p);
        }
    }
}

/// The number of powers `p^k`, `k >= 1`, that divide `n` is the
/// multiplicity of `p` in `n`.
proof fn lemma_dividing_powers_multiplicity(n: nat, p: nat)
    requires
        n >= 1,
        p >= 2,
    ensures
        dividing_powers_from(n, p, p) == multiplicity(n, p),
    decreases n,
{
    if n % p != 0 {
        lemma_mod_self_0(p as int);
        lemma_dividing_powers_none(n, p, p);
    } else {
        lemma_fundamental_div_mod(n as int, p as int);
        let m = n / p;
        assert(n == p * m);
        assert(m >= 1) by {
            if m == 0 {
                lemma_mul_basics(p as int);
            }
        }
        lemma_div_decreases(n as int, p as int);
        lemma_dividing_powers_multiplicity(m, p);
        lemma_mul_basics(p as int);
        lemma_dividing_powers_scaled(m, p, 1);
        lemma_mod_basics_one(m);
        if p > m {
            assert(dividing_powers_from(m, p, p) == 0);
        }
    }
}

proof fn lemma_mod_basics_one(m: nat)
    ensures
        m % 1 == 0,
{
    lemma_fundamental_div_mod(m as int, 1);
    lemma_mod_bound(m as int, 1);
}

/// Legendre's sum for `n` is the one for `n - 1` plus the multiplicity of
/// `p` in `n`.
pub proof fn lemma_legendre_increment(n: nat, p: nat)
    requires
        n >= 1,
        p >= 2,
    ensures
        legendre_spec(n, p) == legendre_spec((n - 1) as nat, p) + multiplicity(n, p),
{
    lemma_legendre_step(n, p, p);
    lemma_dividing_powers_multiplicity(n, p);
}

proof fn lemma_prime_powers_as_product(n: nat, m: nat)
    ensures
        prime_powers_up_to(n, m) == prime_product(|p: nat| legendre_spec(n, p), m),
    decreases m,
{
    if m >= 2 {
        lemma_prime_powers_as_product(n, (m - 1) as nat);
        if is_prime(m as int) {
            lemma_pow_positive(m as int, legendre_spec(n, m));
        }
    }
}

/// Legendre's theorem: `n!` is the product, over the primes `p <= n`, of `p`
/// raised to `floor(n / p) + floor(n / p^2) + ...`.
pub proof fn lemma_legendre_theorem(n: nat)
    ensures
        prime_power_product(n) == factorial_spec(n),
    decreases n,
{
    if n > 0 {
        let m = (n - 1) as nat;
        lemma_legendre_theorem(m);
        let e_n = |p: nat| legendre_spec(n, p);
        let e_m = |p: nat| legendre_spec(m, p);
        let v = |p: nat| multiplicity(n, p);
        let s = |p: nat| e_m(p) + v(p);
        lemma_prime_powers_as_product(n, n);
        lemma_prime_powers_as_product(m, m);
        assert forall|p: nat| p <= n && is_prime(p as int) implies e_n(p) == s(p) by {
            lemma_legendre_increment(n, p);
        }
        lemma_prime_product_congruent(e_n, s, n);
        lemma_prime_product_sum(e_m, v, s, n);
        lemma_factorization(n, n);
        // The exponent of `n` itself in `(n - 1)!` is zero.
        if n >= 2 {
            assert(prime_product(e_m, n) == prime_product(e_m, m)) by {
                let f: nat = if is_prime(n as int) {
                    pow(n as int, e_m(n)) as nat
                } else {
                    1
                };
                assert(prime_product(e_m, n) == prime_product(e_m, m) * f);
                if is_prime(n as int) {
                    assert(legendre_spec(m, n) == 0);
                    lemma_pow0(n as int);
                }
                assert(f == 1);
                lemma_mul_basics(prime_product(e_m, m) as int);
            }
        }
        lemma_mul_is_commutative(n as int, factorial_spec(m) as int);
    }
}

} // verus!
