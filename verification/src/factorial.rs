//! Factorials: a table of the first thousand and one of them, and for larger
//! arguments the product of the prime powers that make up `n!` (a sieve,
//! Legendre's formula and a balanced product tree).
use crate::legendre::lemma_legendre_theorem;
use crate::natural::Natural;
use crate::primes::{
    is_prime, legendre, legendre_from, legendre_spec, lemma_legendre_at_most_n,
    lemma_legendre_from_monotone, lemma_legendre_two_lower, sieve,
};
use vstd::arithmetic::mul::*;
use vstd::arithmetic::power::*;
use vstd::prelude::*;

verus! {

/// `n!`.
pub open spec fn factorial_spec(n: nat) -> nat
    decreases n,
{
    if n == 0 {
        1
    } else {
        n * factorial_spec((n - 1) as nat)
    }
}

/// The product of a sequence of naturals.
pub open spec fn product(s: Seq<nat>) -> nat
    decreases s.len(),
{
    if s.len() == 0 {
        1
    } else {
        product(s.drop_last()) * s.last()
    }
}

/// The values of a sequence of naturals.
pub open spec fn values(s: Seq<Natural>) -> Seq<nat> {
    s.map_values(|x: Natural| x@)
}

/// `p^e` for the prime `p`, where `e` is the exponent of `p` in `n!`; 1 when
/// `p` is not prime.
pub open spec fn prime_power(n: nat, p: nat) -> nat {
    if is_prime(p as int) {
        pow(p as int, legendre_spec(n, p)) as nat
    } else {
        1
    }
}

/// The product of `prime_power(n, p)` over `p <= m`.
pub open spec fn prime_powers_up_to(n: nat, m: nat) -> nat
    decreases m,
{
    if m < 2 {
        1
    } else {
        prime_powers_up_to(n, (m - 1) as nat) * prime_power(n, m)
    }
}

/// The product, over the primes `p <= n`, of `p` raised to its exponent in
/// `n!` by Legendre's formula.
pub open spec fn prime_power_product(n: nat) -> nat {
    prime_powers_up_to(n, n)
}

/// The first `FACT_TABLE_LEN` factorials, in order.
pub open spec fn is_fact_table(v: Seq<Natural>) -> bool {
    &&& v.len() == FACT_TABLE_LEN
    &&& forall|i: int| 0 <= i < v.len() ==> #[trigger] v[i]@ == factorial_spec(i as nat)
}

/// The number of factorials, from `0!`, that the table holds.
pub const FACT_TABLE_LEN: usize = 1001;

pub proof fn lemma_product_concat(a: Seq<nat>, b: Seq<nat>)
    ensures
        product(a + b) == product(a) * product(b),
    decreases b.len(),
{
    if b.len() == 0 {
        assert(a + b =~= a);
    } else {
        lemma_product_concat(a, b.drop_last());
        assert((a + b).drop_last() =~= a + b.drop_last());
        lemma_mul_is_associative(product(a) as int, product(b.drop_last()) as int, b.last() as int);
    }
}

/// The product of `factors`, multiplying halves recursively so that the
/// large multiplications are few and balanced.
pub fn product_tree(factors: &[Natural]) -> (r: Natural)
    ensures
        r@ == product(values(factors@)),
    decreases factors.len(),
{
    if factors.len() == 0 {
        proof {
            assert(values(factors@) =~= Seq::<nat>::empty());
        }
        Natural::from_u64(1)
    } else if factors.len() == 1 {
        proof {
            assert(values(factors@).drop_last() =~= Seq::<nat>::empty());
            assert(values(factors@).last() == factors@[0]@);
            assert(product(values(factors@).drop_last()) == 1);
        }
        proof {
            let v = values(factors@);
            assert(v.len() == 1);
            assert(product(v) == product(v.drop_last()) * v.last());
        }
        factors[0].copy()
    } else {
        let mid = factors.len() / 2;
        let (left, right) = factors.split_at(mid);
        let l = product_tree(left);
        let r = product_tree(right);
        proof {
            assert(values(factors@) =~= values(left@) + values(right@));
            lemma_product_concat(values(left@), values(right@));
        }
        l.mul(&r)
    }
}

/// Without a prime in `(m1, m2]`, the prime powers up to `m2` and up to `m1`
/// have the same product.
proof fn lemma_no_prime_in_gap(n: nat, m1: nat, m2: nat)
    requires
        m1 <= m2,
        forall|p: int| m1 < p <= m2 ==> !is_prime(p),
    ensures
        prime_powers_up_to(n, m2) == prime_powers_up_to(n, m1),
    decreases m2,
{
    if m2 > m1 {
        lemma_no_prime_in_gap(n, m1, (m2 - 1) as nat);
        assert(!is_prime(m2 as int));
        if m2 < 2 {
            assert(prime_powers_up_to(n, m2) == 1);
            assert(prime_powers_up_to(n, m1) == 1);
        }
    }
}

/// Multiplying the prime powers of an increasing list of all primes up to
/// `n` gives `prime_power_product(n)`.
proof fn lemma_prime_list_product(n: nat, ps: Seq<u64>, fs: Seq<nat>)
    requires
        n <= u64::MAX,
        forall|i: int| 0 <= i < ps.len() ==> is_prime(#[trigger] ps[i] as int) && ps[i] <= n,
        forall|i: int, j: int| 0 <= i < j < ps.len() ==> ps[i] < ps[j],
        forall|p: int| 2 <= p <= n && is_prime(p) ==> ps.contains(p as u64),
        fs.len() == ps.len(),
        forall|i: int| 0 <= i < fs.len() ==> #[trigger] fs[i] == prime_power(n, ps[i] as nat),
    ensures
        product(fs) == prime_power_product(n),
{
    if n < 2 {
        if ps.len() > 0 {
            assert(is_prime(ps[0] as int));
        }
        assert(fs =~= Seq::<nat>::empty());
        return;
    }
    let last: nat = if ps.len() == 0 {
        1
    } else {
        ps[ps.len() - 1] as nat
    };
    lemma_prime_list_prefix(n, ps, fs, ps.len() as int);
    assert(fs.take(fs.len() as int) =~= fs);
    assert forall|p: int| last < p <= n implies !is_prime(p) by {
        if is_prime(p) {
            let k = choose|k: int| 0 <= k < ps.len() && ps[k] == p as u64;
            if k < ps.len() - 1 {
                assert(ps[k] < ps[ps.len() - 1]);
            }
        }
    }
    lemma_no_prime_in_gap(n, last, n);
}

proof fn lemma_prime_list_prefix(n: nat, ps: Seq<u64>, fs: Seq<nat>, j: int)
    requires
        n <= u64::MAX,
        0 <= j <= ps.len(),
        forall|i: int| 0 <= i < ps.len() ==> is_prime(#[trigger] ps[i] as int) && ps[i] <= n,
        forall|i: int, k: int| 0 <= i < k < ps.len() ==> ps[i] < ps[k],
        forall|p: int| 2 <= p <= n && is_prime(p) ==> ps.contains(p as u64),
        fs.len() == ps.len(),
        forall|i: int| 0 <= i < fs.len() ==> #[trigger] fs[i] == prime_power(n, ps[i] as nat),
    ensures
        product(fs.take(j)) == prime_powers_up_to(
            n,
            if j == 0 {
                1
            } else {
                ps[j - 1] as nat
            },
        ),
    decreases j,
{
    if j > 0 {
        lemma_prime_list_prefix(n, ps, fs, j - 1);
        let prev: nat = if j == 1 {
            1
        } else {
            ps[j - 2] as nat
        };
        let cur = ps[j - 1] as nat;
        assert(is_prime(cur as int));
        assert forall|p: int| prev < p <= cur - 1 implies !is_prime(p) by {
            if is_prime(p) {
                let k = choose|k: int| 0 <= k < ps.len() && ps[k] == p as u64;
                if k >= j - 1 {
                    if k > j - 1 {
                        assert(ps[j - 1] < ps[k]);
                    }
                } else {
                    if k < j - 2 {
                        assert(ps[k] < ps[j - 2]);
                    }
                }
            }
        }
        if j >= 2 {
            assert(ps[j - 2] < ps[j - 1]);
        }
        lemma_no_prime_in_gap(n, prev, (cur - 1) as nat);
        assert(fs.take(j).drop_last() =~= fs.take(j - 1));
    }
}

/// `n!` as the product of its prime powers: every prime `p <= n` raised to
/// its exponent by Legendre's formula, multiplied in a balanced tree.
pub fn prime_factorial(n: u64) -> (r: Natural)
    requires
        legendre_spec(n as nat, 2) <= u32::MAX,
        n < usize::MAX,
    ensures
        r@ == prime_power_product(n as nat),
        r@ == factorial_spec(n as nat),
{
    proof {
        lemma_legendre_two_lower(n as nat);
    }
    let primes = sieve(n);
    let mut factors: Vec<Natural> = Vec::new();
    let mut i: usize = 0;
    while i < primes.len()
        invariant
            legendre_spec(n as nat, 2) <= u32::MAX,
            i <= primes.len(),
            factors.len() == i,
            forall|k: int| 0 <= k < primes.len() ==> is_prime(#[trigger] primes[k] as int) && primes[k] <= n,
            forall|k: int| 0 <= k < i ==> #[trigger] factors[k]@ == prime_power(
                n as nat,
                primes[k] as nat,
            ),
        decreases primes.len() - i,
    {
        let p = primes[i];
        proof {
            lemma_legendre_from_monotone(n as nat, p as nat, p as nat, 2, 2);
        }
        let e = legendre(n, p);
        factors.push(Natural::from_u64(p).pow(e));
        i = i + 1;
    }
    let r = product_tree(factors.as_slice());
    proof {
        lemma_prime_list_product(n as nat, primes@, values(factors@));
        lemma_legendre_theorem(n as nat);
    }
    r
}

/// The factorials `0!` to `1000!`.
pub fn fact_cache() -> (v: Vec<Natural>)
    ensures
        is_fact_table(v@),
{
    let mut v: Vec<Natural> = Vec::new();
    v.push(Natural::from_u64(1));
    let mut i: u64 = 1;
    while i <= 1000
        invariant
            1 <= i <= 1001,
            v.len() == i,
            forall|k: int| 0 <= k < v.len() ==> #[trigger] v[k]@ == factorial_spec(k as nat),
        decreases 1001 - i,
    {
        let next = v[(i - 1) as usize].mul(&Natural::from_u64(i));
        proof {
            lemma_mul_is_commutative(i as int, factorial_spec((i - 1) as nat) as int);
        }
        v.push(next);
        i = i + 1;
    }
    v
}

/// `n!`: read from `table` up to `1000!`, computed from its prime powers
/// above.
pub fn factorial(n: u64, table: &Vec<Natural>) -> (r: Natural)
    requires
        is_fact_table(table@),
        legendre_spec(n as nat, 2) <= u32::MAX,
        n < usize::MAX,
    ensures
        r@ == factorial_spec(n as nat),
{
    if n < 1001 {
        return table[n as usize].copy();
    }
    prime_factorial(n)
}

/// Whether `factorial(n, ..)` accepts `n`: the exponent of 2 in `n!` fits a
/// `u32` (and so does every other prime's), and `n + 1` flags fit in memory
/// indices.
pub fn factorial_in_range(n: u64) -> (r: bool)
    ensures
        r == (legendre_spec(n as nat, 2) <= u32::MAX && n < usize::MAX),
{
    proof {
        lemma_legendre_at_most_n(n as nat, 2);
    }
    let mut sum: u64 = 0;
    let mut pk: u64 = 2;
    while pk <= n
        invariant
            pk >= 1,
            sum + legendre_from(n as nat, 2, pk as nat) == legendre_spec(n as nat, 2),
            legendre_spec(n as nat, 2) <= n,
        decreases u64::MAX - pk,
    {
        sum = sum + n / pk;
        pk = match pk.checked_mul(2) {
            Some(v) => v,
            None => {
                return sum <= 0xFFFF_FFFF && (n as u128) < (usize::MAX as u128);
            },
        };
    }
    sum <= 0xFFFF_FFFF && (n as u128) < (usize::MAX as u128)
}

} // verus!
