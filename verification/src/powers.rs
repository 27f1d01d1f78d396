//! Powers of two against powers of ten. Two comparisons of exact powers,
//! `2^70777 >= 10^21306` and `2^254370 <= 10^76573`, put log10(2) between
//! 21306/70777 and 76573/254370; from them follow linear bounds between the
//! binary and the decimal length of a number.
use vstd::arithmetic::power::*;
use vstd::prelude::*;

verus! {

/// `b^(i + j) = x * y` where `b^i = x` and `b^j = y`.
proof fn lemma_pow_step(b: int, i: nat, j: nat, x: int, y: int)
    requires
        pow(b, i) == x,
        pow(b, j) == y,
    ensures
        pow(b, i + j) == x * y,
{
    lemma_pow_adds(b, i, j);
}

/// `2^70777 >= 10^21306`. Each `aK` below is `2^K` and each `tK` is `10^K`,
/// found by squaring and then multiplying in the set bits of the exponent.
proof fn lemma_two_70777_ten_21306()
    ensures
        pow(2, 70777) >= pow(10, 21306),
{
    reveal_with_fuel(pow, 2);
    let a1: int = 2;
    lemma_pow_step(2, 1, 1, a1, a1);
    let a2: int = a1 * a1;
    lemma_pow_step(2, 2, 2, a2, a2);
    let a4: int = a2 * a2;
    lemma_pow_step(2, 4, 4, a4, a4);
    let a8: int = a4 * a4;
    lemma_pow_step(2, 8, 8, a8, a8);
    let a16: int = a8 * a8;
    lemma_pow_step(2, 16, 16, a16, a16);
    let a32: int = a16 * a16;
    lemma_pow_step(2, 32, 32, a32, a32);
    let a64: int = a32 * a32;
    lemma_pow_step(2, 64, 64, a64, a64);
    let a128: int = a64 * a64;
    lemma_pow_step(2, 128, 128, a128, a128);
    let a256: int = a128 * a128;
    lemma_pow_step(2, 256, 256, a256, a256);
    let a512: int = a256 * a256;
    lemma_pow_step(2, 512, 512, a512, a512);
    let a1024: int = a512 * a512;
    lemma_pow_step(2, 1024, 1024, a1024, a1024);
    let a2048: int = a1024 * a1024;
    lemma_pow_step(2, 2048, 2048, a2048, a2048);
    let a4096: int = a2048 * a2048;
    lemma_pow_step(2, 4096, 4096, a4096, a4096);
    let a8192: int = a4096 * a4096;
    lemma_pow_step(2, 8192, 8192, a8192, a8192);
    let a16384: int = a8192 * a8192;
    lemma_pow_step(2, 16384, 16384, a16384, a16384);
    let a32768: int = a16384 * a16384;
    lemma_pow_step(2, 32768, 32768, a32768, a32768);
    let a65536: int = a32768 * a32768;
    lemma_pow_step(2, 65536, 4096, a65536, a4096);
    let a69632: int = a65536 * a4096;
    lemma_pow_step(2, 69632, 1024, a69632, a1024);
    let a70656: int = a69632 * a1024;
    lemma_pow_step(2, 70656, 64, a70656, a64);
    let a70720: int = a70656 * a64;
    lemma_pow_step(2, 70720, 32, a70720, a32);
    let a70752: int = a70720 * a32;
    lemma_pow_step(2, 70752, 16, a70752, a16);
    let a70768: int = a70752 * a16;
    lemma_pow_step(2, 70768, 8, a70768, a8);
    let a70776: int = a70768 * a8;
    lemma_pow_step(2, 70776, 1, a70776, a1);
    let a70777: int = a70776 * a1;

    let t1: int = 10;
    lemma_pow_step(10, 1, 1, t1, t1);
    let t2: int = t1 * t1;
    lemma_pow_step(10, 2, 2, t2, t2);
    let t4: int = t2 * t2;
    lemma_pow_step(10, 4, 4, t4, t4);
    let t8: int = t4 * t4;
    lemma_pow_step(10, 8, 8, t8, t8);
    let t16: int = t8 * t8;
    lemma_pow_step(10, 16, 16, t16, t16);
    let t32: int = t16 * t16;
    lemma_pow_step(10, 32, 32, t32, t32);
    let t64: int = t32 * t32;
    lemma_pow_step(10, 64, 64, t64, t64);
    let t128: int = t64 * t64;
    lemma_pow_step(10, 128, 128, t128, t128);
    let t256: int = t128 * t128;
    lemma_pow_step(10, 256, 256, t256, t256);
    let t512: int = t256 * t256;
    lemma_pow_step(10, 512, 512, t512, t512);
    let t1024: int = t512 * t512;
    lemma_pow_step(10, 1024, 1024, t1024, t1024);
    let t2048: int = t1024 * t1024;
    lemma_pow_step(10, 2048, 2048, t2048, t2048);
    let t4096: int = t2048 * t2048;
    lemma_pow_step(10, 4096, 4096, t4096, t4096);
    let t8192: int = t4096 * t4096;
    lemma_pow_step(10, 8192, 8192, t8192, t8192);
    let t16384: int = t8192 * t8192;
    lemma_pow_step(10, 16384, 4096, t16384, t4096);
    let t20480: int = t16384 * t4096;
    lemma_pow_step(10, 20480, 512, t20480, t512);
    let t20992: int = t20480 * t512;
    lemma_pow_step(10, 20992, 256, t20992, t256);
    let t21248: int = t20992 * t256;
    lemma_pow_step(10, 21248, 32, t21248, t32);
    let t21280: int = t21248 * t32;
    lemma_pow_step(10, 21280, 16, t21280, t16);
    let t21296: int = t21280 * t16;
    lemma_pow_step(10, 21296, 8, t21296, t8);
    let t21304: int = t21296 * t8;
    lemma_pow_step(10, 21304, 2, t21304, t2);
    let t21306: int = t21304 * t2;
    assert(a70777 >= t21306);
}

/// `2^254370 <= 10^76573`, found as in `lemma_two_70777_ten_21306`.
proof fn lemma_two_254370_ten_76573()
    ensures
        pow(2, 254370) <= pow(10, 76573),
{
    reveal_with_fuel(pow, 2);
    let a1: int = 2;
    lemma_pow_step(2, 1, 1, a1, a1);
    let a2: int = a1 * a1;
    lemma_pow_step(2, 2, 2, a2, a2);
    let a4: int = a2 * a2;
    lemma_pow_step(2, 4, 4, a4, a4);
    let a8: int = a4 * a4;
    lemma_pow_step(2, 8, 8, a8, a8);
    let a16: int = a8 * a8;
    lemma_pow_step(2, 16, 16, a16, a16);
    let a32: int = a16 * a16;
    lemma_pow_step(2, 32, 32, a32, a32);
    let a64: int = a32 * a32;
    lemma_pow_step(2, 64, 64, a64, a64);
    let a128: int = a64 * a64;
    lemma_pow_step(2, 128, 128, a128, a128);
    let a256: int = a128 * a128;
    lemma_pow_step(2, 256, 256, a256, a256);
    let a512: int = a256 * a256;
    lemma_pow_step(2, 512, 512, a512, a512);
    let a1024: int = a512 * a512;
    lemma_pow_step(2, 1024, 1024, a1024, a1024);
    let a2048: int = a1024 * a1024;
    lemma_pow_step(2, 2048, 2048, a2048, a2048);
    let a4096: int = a2048 * a2048;
    lemma_pow_step(2, 4096, 4096, a4096, a4096);
    let a8192: int = a4096 * a4096;
    lemma_pow_step(2, 8192, 8192, a8192, a8192);
    let a16384: int = a8192 * a8192;
    lemma_pow_step(2, 16384, 16384, a16384, a16384);
    let a32768: int = a16384 * a16384;
    lemma_pow_step(2, 32768, 32768, a32768, a32768);
    let a65536: int = a32768 * a32768;
    lemma_pow_step(2, 65536, 65536, a65536, a65536);
    let a131072: int = a65536 * a65536;
    lemma_pow_step(2, 131072, 65536, a131072, a65536);
    let a196608: int = a131072 * a65536;
    lemma_pow_step(2, 196608, 32768, a196608, a32768);
    let a229376: int = a196608 * a32768;
    lemma_pow_step(2, 229376, 16384, a229376, a16384);
    let a245760: int = a229376 * a16384;
    lemma_pow_step(2, 245760, 8192, a245760, a8192);
    let a253952: int = a245760 * a8192;
    lemma_pow_step(2, 253952, 256, a253952, a256);
    let a254208: int = a253952 * a256;
    lemma_pow_step(2, 254208, 128, a254208, a128);
    let a254336: int = a254208 * a128;
    lemma_pow_step(2, 254336, 32, a254336, a32);
    let a254368: int = a254336 * a32;
    lemma_pow_step(2, 254368, 2, a254368, a2);
    let a254370: int = a254368 * a2;

    let t1: int = 10;
    lemma_pow_step(10, 1, 1, t1, t1);
    let t2: int = t1 * t1;
    lemma_pow_step(10, 2, 2, t2, t2);
    let t4: int = t2 * t2;
    lemma_pow_step(10, 4, 4, t4, t4);
    let t8: int = t4 * t4;
    lemma_pow_step(10, 8, 8, t8, t8);
    let t16: int = t8 * t8;
    lemma_pow_step(10, 16, 16, t16, t16);
    let t32: int = t16 * t16;
    lemma_pow_step(10, 32, 32, t32, t32);
    let t64: int = t32 * t32;
    lemma_pow_step(10, 64, 64, t64, t64);
    let t128: int = t64 * t64;
    lemma_pow_step(10, 128, 128, t128, t128);
    let t256: int = t128 * t128;
    lemma_pow_step(10, 256, 256, t256, t256);
    let t512: int = t256 * t256;
    lemma_pow_step(10, 512, 512, t512, t512);
    let t1024: int = t512 * t512;
    lemma_pow_step(10, 1024, 1024, t1024, t1024);
    let t2048: int = t1024 * t1024;
    lemma_pow_step(10, 2048, 2048, t2048, t2048);
    let t4096: int = t2048 * t2048;
    lemma_pow_step(10, 4096, 4096, t4096, t4096);
    let t8192: int = t4096 * t4096;
    lemma_pow_step(10, 8192, 8192, t8192, t8192);
    let t16384: int = t8192 * t8192;
    lemma_pow_step(10, 16384, 16384, t16384, t16384);
    let t32768: int = t16384 * t16384;
    lemma_pow_step(10, 32768, 32768, t32768, t32768);
    let t65536: int = t32768 * t32768;
    lemma_pow_step(10, 65536, 8192, t65536, t8192);
    let t73728: int = t65536 * t8192;
    lemma_pow_step(10, 73728, 2048, t73728, t2048);
    let t75776: int = t73728 * t2048;
    lemma_pow_step(10, 75776, 512, t75776, t512);
    let t76288: int = t75776 * t512;
    lemma_pow_step(10, 76288, 256, t76288, t256);
    let t76544: int = t76288 * t256;
    lemma_pow_step(10, 76544, 16, t76544, t16);
    let t76560: int = t76544 * t16;
    lemma_pow_step(10, 76560, 8, t76560, t8);
    let t76568: int = t76560 * t8;
    lemma_pow_step(10, 76568, 4, t76568, t4);
    let t76572: int = t76568 * t4;
    lemma_pow_step(10, 76572, 1, t76572, t1);
    let t76573: int = t76572 * t1;
    assert(a254370 <= t76573);
}

/// `x^e <= y^e` for `0 <= x <= y`.
proof fn lemma_pow_base_le(x: int, y: int, e: nat)
    requires
        0 <= x <= y,
    ensures
        0 <= pow(x, e) <= pow(y, e),
    decreases e,
{
    reveal(pow);
    if e > 0 {
        lemma_pow_base_le(x, y, (e - 1) as nat);
        let px = pow(x, (e - 1) as nat);
        let py = pow(y, (e - 1) as nat);
        assert(x * px <= y * py) by (nonlinear_arith)
            requires
                0 <= x <= y,
                0 <= px <= py,
        ;
    }
}

/// `x^e < y^e` for `0 <= x < y` and `e >= 1`.
proof fn lemma_pow_base_lt(x: int, y: int, e: nat)
    requires
        0 <= x < y,
        e >= 1,
    ensures
        pow(x, e) < pow(y, e),
    decreases e,
{
    reveal(pow);
    lemma_pow_base_le(x, y, (e - 1) as nat);
    let px = pow(x, (e - 1) as nat);
    let py = pow(y, (e - 1) as nat);
    lemma_pow_positive(y, (e - 1) as nat);
    assert(x * px < y * py) by (nonlinear_arith)
        requires
            0 <= x < y,
            0 <= px <= py,
            py > 0,
    ;
}

/// A power of two below a power of ten: `2^e < 10^d` gives `21306 e < 70777 d`.
pub proof fn lemma_two_below_ten(e: nat, d: nat)
    requires
        pow(2, e) < pow(10, d),
    ensures
        21306 * e < 70777 * d,
{
    if 21306 * e >= 70777 * d {
        lemma_two_70777_ten_21306();
        lemma_pow_positive(2, e);
        lemma_pow_base_lt(pow(2, e), pow(10, d), 70777);
        lemma_pow_multiplies(10, d, 70777);
        lemma_pow_multiplies(2, e, 70777);
        lemma_pow_multiplies(2, 70777, e);
        lemma_pow_positive(10, 21306);
        lemma_pow_base_le(pow(10, 21306), pow(2, 70777), e);
        lemma_pow_multiplies(10, 21306, e);
        lemma_pow_increases(10, d * 70777, 21306 * e);
        assert(e * 70777 == 70777 * e);
        assert(false);
    }
}

/// A power of ten below a power of two: `10^d < 2^e` gives `254370 d < 76573 e`.
pub proof fn lemma_ten_below_two(d: nat, e: nat)
    requires
        pow(10, d) < pow(2, e),
    ensures
        254370 * d < 76573 * e,
{
    if 254370 * d >= 76573 * e {
        lemma_two_254370_ten_76573();
        lemma_pow_positive(10, d);
        lemma_pow_base_lt(pow(10, d), pow(2, e), 254370);
        lemma_pow_multiplies(2, e, 254370);
        lemma_pow_multiplies(10, d, 254370);
        lemma_pow_multiplies(2, 254370, e);
        lemma_pow_positive(2, 254370);
        lemma_pow_base_le(pow(2, 254370), pow(10, 76573), e);
        lemma_pow_multiplies(10, 76573, e);
        lemma_pow_increases(10, 76573 * e, d * 254370);
        assert(e * 254370 == 254370 * e);
        assert(false);
    }
}

} // verus!
