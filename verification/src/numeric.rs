//! Fixed-point numeric primitives for the RF formulas.
//!
//! Decibel quantities are milli-dB integers, linear powers are
//! attowatts, ratios are parts per million or per trillion.  The
//! logarithm and power helpers approximate their real counterparts with
//! pure integer arithmetic; each executable function returns exactly the
//! value of its specification twin, and the properties the callers rely
//! on (ranges, monotonicity) are proved of those twins.

use vstd::prelude::*;

use vstd::arithmetic::power2::pow2;

verus! {

/// `r` is the integer square root of `x`.
pub open spec fn is_sqrt(x: int, r: int) -> bool {
    0 <= r && r * r <= x && x < (r + 1) * (r + 1)
}

/// The integer square root (well defined by `lemma_sqrt_unique`).
pub open spec fn sqrt_spec(x: int) -> int {
    choose|r: int| is_sqrt(x, r)
}

/// Two integer square roots of the same value coincide.
pub proof fn lemma_sqrt_unique(x: int, r1: int, r2: int)
    requires
        is_sqrt(x, r1),
        is_sqrt(x, r2),
    ensures
        r1 == r2,
{
    if r1 < r2 {
        assert((r1 + 1) * (r1 + 1) <= r2 * r2) by (nonlinear_arith)
            requires 0 <= r1, 0 <= r2, r1 < r2;
    }
    if r2 < r1 {
        assert((r2 + 1) * (r2 + 1) <= r1 * r1) by (nonlinear_arith)
            requires 0 <= r1, 0 <= r2, r2 < r1;
    }
}

/// Concrete values for the larger powers of two the module uses.
proof fn lemma_pow2_consts()
    ensures
        pow2(34) == 0x4_0000_0000,
        pow2(43) == 0x800_0000_0000,
        pow2(66) == 0x4_0000_0000_0000_0000,
        pow2(86) == 0x40_0000_0000_0000_0000_0000,
        pow2(126) == 0x4000_0000_0000_0000_0000_0000_0000_0000,
        pow2(127) == 0x8000_0000_0000_0000_0000_0000_0000_0000,
{
    vstd::arithmetic::power2::lemma2_to64();
    vstd::arithmetic::power2::lemma2_to64_rest();
    vstd::arithmetic::power2::lemma_pow2_adds(64, 2);
    vstd::arithmetic::power2::lemma_pow2_adds(64, 22);
    vstd::arithmetic::power2::lemma_pow2_adds(64, 62);
    vstd::arithmetic::power2::lemma_pow2_adds(64, 63);
}

/// `2^e`, computable.
pub fn pow2_u128(e: u32) -> (r: u128)
    requires
        e < 127,
    ensures
        r as int == pow2(e as nat),
{
    proof {
        vstd::arithmetic::power2::lemma2_to64();
    }
    let mut r: u128 = 1;
    let mut i: u32 = 0;
    while i < e
        invariant
            i <= e < 127,
            r as int == pow2(i as nat),
        decreases e - i,
    {
        proof {
            assert(pow2((i + 1) as nat) == pow2(i as nat) * 2) by {
                vstd::arithmetic::power2::lemma_pow2_adds(i as nat, 1);
                vstd::arithmetic::power2::lemma2_to64();
            }
            vstd::arithmetic::power2::lemma_pow2_strictly_increases(i as nat, 127);
            lemma_pow2_consts();
        }
        r = r * 2;
        i += 1;
    }
    r
}

/// Floor of the square root, by binary digit descent.
pub fn isqrt_u128(x: u128) -> (r: u128)
    requires
        x < 0x40_0000_0000_0000_0000_0000,
    ensures
        is_sqrt(x as int, r as int),
        r as int == sqrt_spec(x as int),
{
    let mut r: u128 = 0;
    let mut k: u32 = 43;
    proof {
        assert(pow2(43) * pow2(43) == pow2(86)) by {
            vstd::arithmetic::power2::lemma_pow2_adds(43, 43);
        }
        lemma_pow2_consts();
    }
    while k > 0
        invariant
            k <= 43,
            r as int * r as int <= x as int,
            (x as int) < (r as int + pow2(k as nat)) * (r as int + pow2(k as nat)),
            r as int + pow2(k as nat) <= pow2(43),
        decreases k,
    {
        proof {
            assert(pow2((k - 1) as nat) * 2 == pow2(k as nat)) by {
                vstd::arithmetic::power2::lemma_pow2_adds((k - 1) as nat, 1);
                vstd::arithmetic::power2::lemma2_to64();
            }
            assert(pow2((k - 1) as nat) > 0) by {
                vstd::arithmetic::power2::lemma_pow2_pos((k - 1) as nat);
            }
            lemma_pow2_consts();
        }
        let step: u128 = pow2_u128(k - 1);
        let cand: u128 = r + step;
        proof {
            let c: int = cand as int;
            let b: int = pow2(43) as int;
            assert(c * c <= b * b) by (nonlinear_arith)
                requires 0 <= c, c <= b;
            assert(pow2(43) * pow2(43) == pow2(86)) by {
                vstd::arithmetic::power2::lemma_pow2_adds(43, 43);
            }
        }
        if cand * cand <= x {
            r = cand;
        }
        proof {
            assert((x as int) < (r as int + pow2((k - 1) as nat)) * (r as int + pow2(
                (k - 1) as nat,
            )));
        }
        k -= 1;
    }
    proof {
        assert(pow2(0) == 1) by {
            vstd::arithmetic::power2::lemma2_to64();
        }
        assert(is_sqrt(x as int, r as int));
        assert(is_sqrt(x as int, sqrt_spec(x as int)));
        lemma_sqrt_unique(x as int, r as int, sqrt_spec(x as int));
    }
    r
}

/// Floor of the base-2 logarithm.
pub open spec fn is_floor_log2(x: int, r: nat) -> bool {
    pow2(r) <= x < pow2(r + 1)
}

/// Floor of the base-2 logarithm, by repeated doubling.
pub fn floor_log2_u128(x: u128) -> (r: u32)
    requires
        1 <= x < 0x4000_0000_0000_0000_0000_0000_0000_0000,
    ensures
        is_floor_log2(x as int, r as nat),
        r < 127,
{
    let mut r: u32 = 0;
    let mut p: u128 = 1;
    proof {
        assert(pow2(0) == 1) by {
            vstd::arithmetic::power2::lemma2_to64();
        }
        lemma_pow2_consts();
    }
    while p * 2 <= x
        invariant
            p as int == pow2(r as nat),
            1 <= p <= x,
            x < 0x4000_0000_0000_0000_0000_0000_0000_0000,
            r < 127,
        decreases x - p,
    {
        proof {
            assert(pow2((r + 1) as nat) == pow2(r as nat) * 2) by {
                vstd::arithmetic::power2::lemma_pow2_adds(r as nat, 1);
                vstd::arithmetic::power2::lemma2_to64();
            }
            if r + 1 >= 127 {
                lemma_pow2_consts();
                assert(false);
            }
        }
        p = p * 2;
        r += 1;
    }
    proof {
        assert(pow2((r + 1) as nat) == pow2(r as nat) * 2) by {
            vstd::arithmetic::power2::lemma_pow2_adds(r as nat, 1);
            vstd::arithmetic::power2::lemma2_to64();
        }
    }
    r
}

/// Fractional bits of the base-2 logarithm of a mantissa scaled by
/// `2^32`, by `bits` squaring steps (most significant bit first).
pub open spec fn log2_frac_spec(m: int, bits: nat) -> int
    decreases bits,
{
    if bits == 0 {
        0
    } else {
        let m2 = m * m / (pow2(32) as int);
        if m2 >= pow2(33) {
            pow2((bits - 1) as nat) + log2_frac_spec(m2 / 2, (bits - 1) as nat)
        } else {
            log2_frac_spec(m2, (bits - 1) as nat)
        }
    }
}

/// The fractional bits stay below `2^bits`.
pub proof fn lemma_log2_frac_range(m: int, bits: nat)
    ensures
        0 <= log2_frac_spec(m, bits) < pow2(bits),
    decreases bits,
{
    vstd::arithmetic::power2::lemma_pow2_pos(bits);
    if bits > 0 {
        let m2 = m * m / (pow2(32) as int);
        lemma_log2_frac_range(m2 / 2, (bits - 1) as nat);
        lemma_log2_frac_range(m2, (bits - 1) as nat);
        assert(pow2(bits) == 2 * pow2((bits - 1) as nat)) by {
            vstd::arithmetic::power2::lemma_pow2_adds(1, (bits - 1) as nat);
            vstd::arithmetic::power2::lemma2_to64();
        }
    }
}

/// Sixteen fractional bits of the base-2 logarithm of `m / 2^32`.
pub fn log2_frac_q16(m0: u128) -> (r: u64)
    requires
        pow2(32) <= m0 < pow2(33),
    ensures
        r as int == log2_frac_spec(m0 as int, 16),
        r < 0x1_0000,
{
    let mut m: u128 = m0;
    let mut r: u64 = 0;
    let mut done: u32 = 0;
    proof {
        vstd::arithmetic::power2::lemma2_to64();
        assert(pow2(16) == 0x1_0000);
    }
    while done < 16
        invariant
            done <= 16,
            pow2(32) <= m < pow2(33),
            r as int * pow2((16 - done) as nat) + log2_frac_spec(m as int, (16 - done) as nat)
                == log2_frac_spec(m0 as int, 16),
            r < pow2(done as nat),
        decreases 16 - done,
    {
        proof {
            vstd::arithmetic::power2::lemma2_to64();
            vstd::arithmetic::power2::lemma2_to64_rest();
            let mi: int = m as int;
            let p33: int = pow2(33) as int;
            let p32: int = pow2(32) as int;
            assert(mi * mi < p33 * p33) by (nonlinear_arith)
                requires 0 <= mi, mi < p33;
            assert(pow2(33) * pow2(33) == pow2(66)) by {
                vstd::arithmetic::power2::lemma_pow2_adds(33, 33);
            }
            lemma_pow2_consts();
            assert(mi * mi >= p32 * p32) by (nonlinear_arith)
                requires mi >= p32, p32 > 0;
            assert(pow2(32) * pow2(32) == pow2(64)) by {
                vstd::arithmetic::power2::lemma_pow2_adds(32, 32);
            }
            vstd::arithmetic::div_mod::lemma_div_is_ordered(
                pow2(64) as int,
                m as int * m as int,
                pow2(32) as int,
            );
            assert(pow2(64) as int / pow2(32) as int == pow2(32)) by {
                vstd::arithmetic::power2::lemma_pow2_subtracts(32, 64);
                vstd::arithmetic::power2::lemma_pow2_pos(32);
                vstd::arithmetic::div_mod::lemma_div_multiples_vanish(
                    pow2(32) as int,
                    pow2(32) as int,
                );
            }
            vstd::arithmetic::div_mod::lemma_div_is_ordered(
                m as int * m as int,
                (pow2(66) - 1) as int,
                pow2(32) as int,
            );
            lemma_pow2_consts();
            let p66m: int = pow2(66) - 1;
            assert(p66m / p32 < pow2(34));
        }
        let m2: u128 = (m * m) >> 32;
        let ghost m_before: int = m as int;
        let ghost r_before: int = r as int;
        let ghost b: nat = (16 - done) as nat;
        proof {
            assert(m2 as int == m as int * m as int / pow2(32) as int) by {
                vstd::bits::lemma_u128_shr_is_div((m * m) as u128, 32);
            }
            assert(pow2(b) == 2 * pow2((b - 1) as nat)) by {
                vstd::arithmetic::power2::lemma_pow2_adds(1, (b - 1) as nat);
            }
        }
        if m2 >= 0x2_0000_0000 {
            m = m2 / 2;
            r = r * 2 + 1;
            proof {
                assert(log2_frac_spec(m_before, b) == pow2((b - 1) as nat) + log2_frac_spec(
                    m as int,
                    (b - 1) as nat,
                ));
                assert(r as int * pow2((b - 1) as nat) == r_before * pow2(b) + pow2(
                    (b - 1) as nat,
                )) by (nonlinear_arith)
                    requires pow2(b) == 2 * pow2((b - 1) as nat), r as int == 2 * r_before + 1;
            }
        } else {
            m = m2;
            r = r * 2;
            proof {
                assert(log2_frac_spec(m_before, b) == log2_frac_spec(m as int, (b - 1) as nat));
                assert(r as int * pow2((b - 1) as nat) == r_before * pow2(b)) by (nonlinear_arith)
                    requires pow2(b) == 2 * pow2((b - 1) as nat), r as int == 2 * r_before;
            }
        }
        proof {
            assert(pow2((done + 1) as nat) == 2 * pow2(done as nat)) by {
                vstd::arithmetic::power2::lemma_pow2_adds(1, done as nat);
            }
            assert((16 - (done + 1)) as nat == (b - 1) as nat);
        }
        done += 1;
    }
    proof {
        vstd::arithmetic::power2::lemma2_to64();
        assert((16 - done) as nat == 0);
        assert(r as int * 1 == r as int) by (nonlinear_arith);
    }
    r
}


/// `k` is the floor of the base-2 logarithm of `num / den`.
pub open spec fn is_ratio_log2(num: int, den: int, k: nat) -> bool {
    den * pow2(k) <= num < den * pow2(k + 1)
}

/// Floor of the base-2 logarithm of `num / den` (for `num >= den >= 1`;
/// well defined by `lemma_ratio_log2_unique`).
pub open spec fn ratio_log2(num: int, den: int) -> nat {
    choose|k: nat| is_ratio_log2(num, den, k)
}

/// The floor of a ratio logarithm is unique.
pub proof fn lemma_ratio_log2_unique(num: int, den: int, k1: nat, k2: nat)
    requires
        den >= 1,
        is_ratio_log2(num, den, k1),
        is_ratio_log2(num, den, k2),
    ensures
        k1 == k2,
{
    if k1 < k2 {
        vstd::arithmetic::power2::lemma_pow2_adds((k1 + 1) as nat, (k2 - k1 - 1) as nat);
        vstd::arithmetic::power2::lemma_pow2_pos((k2 - k1 - 1) as nat);
        vstd::arithmetic::power2::lemma_pow2_pos((k1 + 1) as nat);
        let a: int = pow2((k1 + 1) as nat) as int;
        let b: int = pow2(k2) as int;
        let c: int = pow2((k2 - k1 - 1) as nat) as int;
        assert(a <= b) by (nonlinear_arith)
            requires b == a * c, c >= 1, a > 0;
        assert(den * a <= den * b) by (nonlinear_arith)
            requires den >= 1, 0 < a <= b;
    }
    if k2 < k1 {
        vstd::arithmetic::power2::lemma_pow2_adds((k2 + 1) as nat, (k1 - k2 - 1) as nat);
        vstd::arithmetic::power2::lemma_pow2_pos((k1 - k2 - 1) as nat);
        vstd::arithmetic::power2::lemma_pow2_pos((k2 + 1) as nat);
        let a: int = pow2((k2 + 1) as nat) as int;
        let b: int = pow2(k1) as int;
        let c: int = pow2((k1 - k2 - 1) as nat) as int;
        assert(a <= b) by (nonlinear_arith)
            requires b == a * c, c >= 1, a > 0;
        assert(den * a <= den * b) by (nonlinear_arith)
            requires den >= 1, 0 < a <= b;
    }
}

/// Thousandths of the base-2 logarithm of `num / den >= 1`: the integer
/// part exactly, the fractional part by sixteen squaring steps, rounded.
pub open spec fn log2_milli_pos_spec(num: int, den: int) -> int {
    let k = ratio_log2(num, den);
    let m = num * 0x1_0000_0000 / (den * pow2(k));
    1000 * k + (log2_frac_spec(m, 16) * 1000 + 32768) / 65536
}

/// Thousandths of the base-2 logarithm of `num / den`, either sign.
pub open spec fn log2_milli_spec(num: int, den: int) -> int {
    if num >= den {
        log2_milli_pos_spec(num, den)
    } else {
        -log2_milli_pos_spec(den, num)
    }
}

/// Thousandths of the base-10 logarithm of `num / den`, derived from the
/// base-2 logarithm by the rounded constant `log10(2) = 0.30103`.
pub open spec fn log10_milli_spec(num: int, den: int) -> int {
    if num >= den {
        (log2_milli_pos_spec(num, den) * 30103 + 50000) / 100000
    } else {
        -((log2_milli_pos_spec(den, num) * 30103 + 50000) / 100000)
    }
}

/// Thousandths of the base-2 logarithm of `num / den >= 1`.
pub fn log2_milli_pos(num: u128, den: u128) -> (r: u64)
    requires
        1 <= den <= num,
        num < 0x400_0000_0000_0000_0000_0000,
    ensures
        r as int == log2_milli_pos_spec(num as int, den as int),
        r <= 128_000,
{
    proof {
        vstd::arithmetic::power2::lemma2_to64();
        vstd::arithmetic::power2::lemma2_to64_rest();
        vstd::arithmetic::div_mod::lemma_div_non_zero(num as int, den as int);
        vstd::arithmetic::div_mod::lemma_div_nonincreasing(num as int, den as int);
    }
    let q: u128 = num / den;
    let k: u32 = floor_log2_u128(q);
    proof {
        vstd::arithmetic::div_mod::lemma_fundamental_div_mod(num as int, den as int);
        vstd::arithmetic::div_mod::lemma_remainder_lower(num as int, den as int);
        vstd::arithmetic::div_mod::lemma_remainder_upper(num as int, den as int);
        let d: int = den as int;
        let qq: int = q as int;
        let pk: int = pow2(k as nat) as int;
        let pk1: int = pow2((k + 1) as nat) as int;
        assert(d * pk <= d * qq) by (nonlinear_arith)
            requires d >= 1, 0 <= pk <= qq;
        assert(d * qq <= num as int) by (nonlinear_arith)
            requires num as int == d * qq + (num as int) % d, (num as int) % d >= 0;
        assert((num as int) < d * (qq + 1)) by (nonlinear_arith)
            requires num as int == d * qq + (num as int) % d, (num as int) % d < d;
        assert(d * (qq + 1) <= d * pk1) by (nonlinear_arith)
            requires d >= 1, qq + 1 <= pk1;
        assert(is_ratio_log2(num as int, den as int, k as nat));
        lemma_ratio_log2_unique(
            num as int,
            den as int,
            k as nat,
            ratio_log2(num as int, den as int),
        );
    }
    let pw: u128 = pow2_u128(k);
    proof {
        vstd::arithmetic::power2::lemma_pow2_pos(k as nat);
        vstd::arithmetic::power2::lemma_pow2_adds(k as nat, 1);
        let d: int = den as int;
        let pk: int = pow2(k as nat) as int;
        assert(d * pk <= num as int);
        assert(pw as int == pk);
        assert(pk >= 1);
        assert(d * (pw as int) <= num as int);
        assert(d * (pw as int) >= 1) by (nonlinear_arith)
            requires d >= 1, (pw as int) >= 1;
        assert((num as int) * 0x1_0000_0000 < 0x400_0000_0000_0000_0000_0000 * 0x1_0000_0000)
            by (nonlinear_arith)
            requires (num as int) < 0x400_0000_0000_0000_0000_0000;
        assert((num as nat) * 0x1_0000_0000 <= 0xFFFF_FFFF_FFFF_FFFF_FFFF_FFFF_FFFF_FFFF);
        let pk1: int = pow2((k + 1) as nat) as int;
        assert(pk1 == 2 * pk) by {
            vstd::arithmetic::power2::lemma2_to64();
        }
        assert((num as int) < 2 * (d * pk)) by (nonlinear_arith)
            requires (num as int) < d * pk1, pk1 == 2 * pk, d >= 1;
    }
    let dk: u128 = den * pw;
    let msc: u128 = num * 0x1_0000_0000;
    let m: u128 = msc / dk;
    proof {
        let dki: int = dk as int;
        let p32: int = pow2(32) as int;
        let p33: int = pow2(33) as int;
        assert(p32 == 0x1_0000_0000);
        assert(p33 == 2 * p32);
        assert(dki * p32 <= num as int * p32) by (nonlinear_arith)
            requires dki <= num as int, p32 > 0;
        vstd::arithmetic::div_mod::lemma_div_is_ordered(dki * p32, num as int * p32, dki);
        vstd::arithmetic::div_mod::lemma_div_by_multiple(p32, dki);
        assert((m as int) >= p32);
        assert((num as int) * p32 < dki * p33) by (nonlinear_arith)
            requires (num as int) < 2 * dki, p33 == 2 * p32, p32 > 0, dki > 0;
        vstd::arithmetic::div_mod::lemma_multiply_divide_lt(num as int * p32, dki, p33);
        assert((m as int) < p33);
    }
    let f: u64 = log2_frac_q16(m);
    let fm: u64 = (f * 1000 + 32768) / 65536;
    let r: u64 = 1000 * (k as u64) + fm;
    proof {
        assert(fm <= 1000);
        assert(k < 127);
    }
    r
}

/// Thousandths of the base-2 logarithm of `num / den`, either sign.
pub fn log2_milli(num: u128, den: u128) -> (r: i64)
    requires
        1 <= num < 0x400_0000_0000_0000_0000_0000,
        1 <= den < 0x400_0000_0000_0000_0000_0000,
    ensures
        r as int == log2_milli_spec(num as int, den as int),
        -128_000 <= r <= 128_000,
        num >= den ==> r >= 0,
{
    if num >= den {
        log2_milli_pos(num, den) as i64
    } else {
        -(log2_milli_pos(den, num) as i64)
    }
}

/// Thousandths of the base-10 logarithm of `num / den`, either sign.
pub fn log10_milli(num: u128, den: u128) -> (r: i64)
    requires
        1 <= num < 0x400_0000_0000_0000_0000_0000,
        1 <= den < 0x400_0000_0000_0000_0000_0000,
    ensures
        r as int == log10_milli_spec(num as int, den as int),
        -40_000 <= r <= 40_000,
{
    if num >= den {
        let p: u64 = log2_milli_pos(num, den);
        ((p * 30103 + 50000) / 100000) as i64
    } else {
        let p: u64 = log2_milli_pos(den, num);
        -(((p * 30103 + 50000) / 100000) as i64)
    }
}

/// `10^e`, as an integer.
pub open spec fn pow10_spec(e: nat) -> int
    decreases e,
{
    if e == 0 {
        1
    } else {
        10 * pow10_spec((e - 1) as nat)
    }
}

/// Powers of ten are positive and grow with the exponent.
pub proof fn lemma_pow10_bounds(e: nat)
    requires
        e <= 35,
    ensures
        1 <= pow10_spec(e) <= 100_000_000_000_000_000_000_000_000_000_000_000,
        e < 35 ==> 10 * pow10_spec(e) <= 100_000_000_000_000_000_000_000_000_000_000_000,
    decreases 35 - e,
{
    if e == 35 {
        reveal_with_fuel(pow10_spec, 36);
    } else {
        lemma_pow10_bounds(e + 1);
    }
}

/// Larger exponents give larger powers of ten.
pub proof fn lemma_pow10_increases(e1: nat, e2: nat)
    requires
        e1 <= e2,
    ensures
        pow10_spec(e1) <= pow10_spec(e2),
        pow10_spec(e1) >= 1,
    decreases e2,
{
    if e1 == e2 {
        if e1 == 0 {
        } else {
            lemma_pow10_increases((e1 - 1) as nat, (e1 - 1) as nat);
        }
    } else {
        lemma_pow10_increases(e1, (e2 - 1) as nat);
    }
}

/// `10^e`, computable.
pub fn pow10_u128(e: u32) -> (r: u128)
    requires
        e <= 35,
    ensures
        r as int == pow10_spec(e as nat),
{
    let mut r: u128 = 1;
    let mut i: u32 = 0;
    while i < e
        invariant
            i <= e <= 35,
            r as int == pow10_spec(i as nat),
        decreases e - i,
    {
        proof {
            lemma_pow10_bounds(i as nat);
        }
        r = r * 10;
        i += 1;
    }
    r
}

/// Linear power in attowatts for a level in milli-dBm: `10^(t/10000)`
/// with `t = mdbm + 150000`, the decades exactly and the remainder by
/// linear interpolation between one and ten; zero below the scale.
pub open spec fn dbm_to_aw_spec(mdbm: int) -> int {
    let t = mdbm + 150_000;
    if t < 0 {
        0
    } else {
        pow10_spec((t / 10_000) as nat) * (10_000 + 9 * (t % 10_000)) / 10_000
    }
}

/// The attowatt value never decreases as the dBm level rises.
pub proof fn lemma_dbm_to_aw_monotone(m1: int, m2: int)
    requires
        m1 <= m2,
    ensures
        dbm_to_aw_spec(m1) <= dbm_to_aw_spec(m2),
{
    let t1 = m1 + 150_000;
    let t2 = m2 + 150_000;
    if t1 >= 0 {
        vstd::arithmetic::div_mod::lemma_div_is_ordered(t1, t2, 10_000);
        let k1 = (t1 / 10_000) as nat;
        let k2 = (t2 / 10_000) as nat;
        let g1 = 10_000 + 9 * (t1 % 10_000);
        let g2 = 10_000 + 9 * (t2 % 10_000);
        vstd::arithmetic::div_mod::lemma_fundamental_div_mod(t1, 10_000);
        vstd::arithmetic::div_mod::lemma_fundamental_div_mod(t2, 10_000);
        vstd::arithmetic::div_mod::lemma_remainder_lower(t1, 10_000);
        vstd::arithmetic::div_mod::lemma_remainder_upper(t1, 10_000);
        vstd::arithmetic::div_mod::lemma_remainder_lower(t2, 10_000);
        vstd::arithmetic::div_mod::lemma_remainder_upper(t2, 10_000);
        lemma_pow10_increases(k1, k2);
        if k1 == k2 {
            assert(t1 % 10_000 <= t2 % 10_000);
            assert(pow10_spec(k1) * g1 <= pow10_spec(k2) * g2) by (nonlinear_arith)
                requires pow10_spec(k1) == pow10_spec(k2), pow10_spec(k1) >= 1, 0 < g1 <= g2;
            vstd::arithmetic::div_mod::lemma_div_is_ordered(
                pow10_spec(k1) * g1,
                pow10_spec(k2) * g2,
                10_000,
            );
        } else {
            lemma_pow10_increases((k1 + 1) as nat, k2);
            let p1 = pow10_spec(k1);
            let p2 = pow10_spec(k2);
            assert(p1 * g1 <= p1 * 100_000) by (nonlinear_arith)
                requires p1 >= 1, 0 < g1 <= 100_000;
            vstd::arithmetic::div_mod::lemma_div_is_ordered(p1 * g1, p1 * 100_000, 10_000);
            assert(p1 * 100_000 == (10 * p1) * 10_000);
            vstd::arithmetic::div_mod::lemma_div_by_multiple(10 * p1, 10_000);
            assert(pow10_spec((k1 + 1) as nat) == 10 * p1);
            assert(p2 * 10_000 <= p2 * g2) by (nonlinear_arith)
                requires p2 >= 1, 10_000 <= g2;
            vstd::arithmetic::div_mod::lemma_div_is_ordered(p2 * 10_000, p2 * g2, 10_000);
            vstd::arithmetic::div_mod::lemma_div_by_multiple(p2, 10_000);
        }
    } else {
        if t2 >= 0 {
            let k2 = (t2 / 10_000) as nat;
            let g2 = 10_000 + 9 * (t2 % 10_000);
            vstd::arithmetic::div_mod::lemma_div_pos_is_pos(t2, 10_000);
            vstd::arithmetic::div_mod::lemma_remainder_lower(t2, 10_000);
            lemma_pow10_increases(0, k2);
            let p2 = pow10_spec(k2);
            assert(p2 * 10_000 <= p2 * g2) by (nonlinear_arith)
                requires p2 >= 1, 10_000 <= g2;
            vstd::arithmetic::div_mod::lemma_div_is_ordered(p2 * 10_000, p2 * g2, 10_000);
            vstd::arithmetic::div_mod::lemma_div_by_multiple(p2, 10_000);
        }
    }
}

/// Powers of ten up to thirty decades stay within `10^30`.
pub proof fn lemma_pow10_bounds30(e: nat)
    requires
        e <= 30,
    ensures
        1 <= pow10_spec(e) <= 1_000_000_000_000_000_000_000_000_000_000,
    decreases 30 - e,
{
    if e == 30 {
        reveal_with_fuel(pow10_spec, 31);
    } else {
        lemma_pow10_bounds30(e + 1);
    }
}

/// Linear power in attowatts for a level in milli-dBm.
pub fn dbm_to_attowatts(mdbm: i64) -> (r: u128)
    requires
        -10_000_000 <= mdbm <= 150_000,
    ensures
        r as int == dbm_to_aw_spec(mdbm as int),
        r <= 10_000_000_000_000_000_000_000_000_000_000,
{
    if mdbm < -150_000 {
        return 0;
    }
    let t: u64 = (mdbm + 150_000) as u64;
    let k: u32 = (t / 10_000) as u32;
    let f: u64 = t % 10_000;
    proof {
        assert(t <= 300_000);
        assert(k <= 30);
        lemma_pow10_bounds30(k as nat);
    }
    let p: u128 = pow10_u128(k);
    let g: u128 = 10_000 + 9 * (f as u128);
    proof {
        let pi: int = p as int;
        let gi: int = g as int;
        assert(pi * gi <= pi * 100_000) by (nonlinear_arith)
            requires pi >= 0, 0 <= gi <= 100_000;
        assert(pi * 100_000 <= 1_000_000_000_000_000_000_000_000_000_000 * 100_000)
            by (nonlinear_arith)
            requires 0 <= pi <= 1_000_000_000_000_000_000_000_000_000_000;
        vstd::arithmetic::div_mod::lemma_div_is_ordered(
            pi * gi,
            pi * 100_000,
            10_000,
        );
        assert(pi * 100_000 == (10 * pi) * 10_000);
        vstd::arithmetic::div_mod::lemma_div_by_multiple(10 * pi, 10_000);
    }
    (p * g) / 10_000
}

/// Bit error rate, in parts per trillion, for a linear
/// signal-to-interference-plus-noise ratio in parts per million:
/// `1e-10` above 20, one half below 0.01, else `exp(-sinr)/2`
/// approximated through the base-2 exponent with a linear fraction.
pub open spec fn ber_pt_spec(sinr_micro: int) -> int {
    if sinr_micro > 20_000_000 {
        100
    } else if sinr_micro < 10_000 {
        500_000_000_000
    } else {
        let t = sinr_micro * 1_442_695 / 1_000_000;
        (1_000_000_000_000 - (t % 1_000_000) / 2) / (pow2((t / 1_000_000) as nat) as int) / 2
    }
}

/// Bit error rate for a linear SINR in parts per million.
pub fn ber_pt(sinr_micro: u128) -> (r: u64)
    ensures
        r as int == ber_pt_spec(sinr_micro as int),
        100 <= r <= 500_000_000_000,
{
    if sinr_micro > 20_000_000 {
        100
    } else if sinr_micro < 10_000 {
        500_000_000_000
    } else {
        let t: u64 = ((sinr_micro * 1_442_695) / 1_000_000) as u64;
        let k: u32 = (t / 1_000_000) as u32;
        let f: u64 = t % 1_000_000;
        proof {
            assert(t <= 28_853_900);
            assert(k <= 28);
            vstd::arithmetic::power2::lemma2_to64();
        }
        let p: u128 = pow2_u128(k);
        let num: u128 = 1_000_000_000_000 - ((f as u128) / 2);
        let r: u64 = ((num / p) / 2) as u64;
        proof {
            let ni: int = num as int;
            let pi: int = p as int;
            vstd::arithmetic::div_mod::lemma_div_is_ordered(ni, 1_000_000_000_000, pi);
            vstd::arithmetic::div_mod::lemma_div_is_ordered(
                999_999_500_000,
                ni,
                pi,
            );
            vstd::arithmetic::div_mod::lemma_div_is_ordered_by_denominator(
                999_999_500_000,
                pi,
                0x10000000,
            );
            vstd::arithmetic::div_mod::lemma_div_is_ordered(
                ni / pi,
                1_000_000_000_000,
                2,
            );
            vstd::arithmetic::div_mod::lemma_div_is_ordered(
                999_999_500_000int / 0x10000000,
                ni / pi,
                2,
            );
            assert(pow2(28) == 0x10000000);
        }
        r
    }
}

/// `(base / 1e12) ^ n`, in parts per trillion, with truncation at each
/// step.
pub open spec fn pow_frac_pt_spec(base: int, n: nat) -> int
    decreases n,
{
    if n == 0 {
        1_000_000_000_000
    } else {
        pow_frac_pt_spec(base, (n - 1) as nat) * base / 1_000_000_000_000
    }
}

/// The stepwise power stays within the unit interval.
pub proof fn lemma_pow_frac_range(base: int, n: nat)
    requires
        0 <= base <= 1_000_000_000_000,
    ensures
        0 <= pow_frac_pt_spec(base, n) <= 1_000_000_000_000,
    decreases n,
{
    if n > 0 {
        lemma_pow_frac_range(base, (n - 1) as nat);
        let a = pow_frac_pt_spec(base, (n - 1) as nat);
        assert(a * base <= 1_000_000_000_000 * 1_000_000_000_000) by (nonlinear_arith)
            requires 0 <= a <= 1_000_000_000_000, 0 <= base <= 1_000_000_000_000;
        assert(a * base >= 0) by (nonlinear_arith)
            requires a >= 0, base >= 0;
        vstd::arithmetic::div_mod::lemma_div_is_ordered(
            a * base,
            1_000_000_000_000int * 1_000_000_000_000,
            1_000_000_000_000,
        );
        vstd::arithmetic::div_mod::lemma_div_pos_is_pos(a * base, 1_000_000_000_000);
        vstd::arithmetic::div_mod::lemma_div_by_multiple(1_000_000_000_000, 1_000_000_000_000);
    }
}

/// A larger base gives a larger stepwise power.
pub proof fn lemma_pow_frac_monotone(b1: int, b2: int, n: nat)
    requires
        0 <= b1 <= b2 <= 1_000_000_000_000,
    ensures
        pow_frac_pt_spec(b1, n) <= pow_frac_pt_spec(b2, n),
    decreases n,
{
    if n > 0 {
        lemma_pow_frac_monotone(b1, b2, (n - 1) as nat);
        lemma_pow_frac_range(b1, (n - 1) as nat);
        lemma_pow_frac_range(b2, (n - 1) as nat);
        let a1 = pow_frac_pt_spec(b1, (n - 1) as nat);
        let a2 = pow_frac_pt_spec(b2, (n - 1) as nat);
        assert(a1 * b1 <= a2 * b2) by (nonlinear_arith)
            requires 0 <= a1 <= a2, 0 <= b1 <= b2;
        vstd::arithmetic::div_mod::lemma_div_is_ordered(a1 * b1, a2 * b2, 1_000_000_000_000);
    }
}

/// `(base / 1e12) ^ n`, computable.
pub fn pow_frac_pt(base: u64, n: usize) -> (r: u64)
    requires
        base <= 1_000_000_000_000,
    ensures
        r as int == pow_frac_pt_spec(base as int, n as nat),
        r <= 1_000_000_000_000,
{
    let mut acc: u128 = 1_000_000_000_000;
    let mut i: usize = 0;
    while i < n
        invariant
            i <= n,
            base <= 1_000_000_000_000,
            acc as int == pow_frac_pt_spec(base as int, i as nat),
            acc <= 1_000_000_000_000,
        decreases n - i,
    {
        proof {
            lemma_pow_frac_range(base as int, (i + 1) as nat);
        }
        acc = (acc * (base as u128)) / 1_000_000_000_000;
        i += 1;
    }
    acc as u64
}


/// The attowatt value is never negative.
pub proof fn lemma_dbm_to_aw_nonneg(mdbm: int)
    ensures
        dbm_to_aw_spec(mdbm) >= 0,
{
    let t = mdbm + 150_000;
    if t >= 0 {
        let k = (t / 10_000) as nat;
        let g = 10_000 + 9 * (t % 10_000);
        vstd::arithmetic::div_mod::lemma_div_pos_is_pos(t, 10_000);
        vstd::arithmetic::div_mod::lemma_remainder_lower(t, 10_000);
        lemma_pow10_increases(0, k);
        assert(pow10_spec(k) * g >= 0) by (nonlinear_arith)
            requires pow10_spec(k) >= 1, g >= 0;
        vstd::arithmetic::div_mod::lemma_div_pos_is_pos(pow10_spec(k) * g, 10_000);
    }
}

/// Exact attowatt values at the levels the contracts lean on.
pub proof fn lemma_dbm_to_aw_values()
    ensures
        dbm_to_aw_spec(-150_000) == 1,
        dbm_to_aw_spec(100_000) == 10_000_000_000_000_000_000_000_000,
        dbm_to_aw_spec(110_000) == 100_000_000_000_000_000_000_000_000,
        dbm_to_aw_spec(150_000) == 1_000_000_000_000_000_000_000_000_000_000,
{
    reveal_with_fuel(pow10_spec, 31);
    vstd::arithmetic::div_mod::lemma_div_by_multiple(pow10_spec(0), 10_000);
    vstd::arithmetic::div_mod::lemma_div_by_multiple(pow10_spec(25), 10_000);
    vstd::arithmetic::div_mod::lemma_div_by_multiple(pow10_spec(26), 10_000);
    vstd::arithmetic::div_mod::lemma_div_by_multiple(pow10_spec(30), 10_000);
}

/// The bit error rate stays between the high-SINR floor and one half.
pub proof fn lemma_ber_range(s: int)
    requires
        s >= 0,
    ensures
        100 <= ber_pt_spec(s) <= 500_000_000_000,
{
    vstd::arithmetic::power2::lemma2_to64();
    if s > 20_000_000 || s < 10_000 {
    } else {
        lemma_ber_else_low_bound(s);
        let t = s * 1_442_695 / 1_000_000;
        let k = (t / 1_000_000) as nat;
        let n = 1_000_000_000_000 - (t % 1_000_000) / 2;
        assert(s * 1_442_695 >= 0) by (nonlinear_arith)
            requires s >= 0;
        vstd::arithmetic::div_mod::lemma_div_pos_is_pos(s * 1_442_695, 1_000_000);
        vstd::arithmetic::div_mod::lemma_div_pos_is_pos(t, 1_000_000);
        vstd::arithmetic::div_mod::lemma_remainder_lower(t, 1_000_000);
        vstd::arithmetic::power2::lemma_pow2_pos(k);
        vstd::arithmetic::div_mod::lemma_div_is_ordered(n, 1_000_000_000_000, pow2(k) as int);
        vstd::arithmetic::div_mod::lemma_div_is_ordered_by_denominator(
            1_000_000_000_000,
            1,
            pow2(k) as int,
        );
        vstd::arithmetic::div_mod::lemma_div_is_ordered(
            n / (pow2(k) as int),
            1_000_000_000_000,
            2,
        );
    }
}

/// The bit error rate never rises as the linear SINR rises.
pub proof fn lemma_ber_antitone(s1: int, s2: int)
    requires
        0 <= s1 <= s2,
    ensures
        ber_pt_spec(s1) >= ber_pt_spec(s2),
{
    vstd::arithmetic::power2::lemma2_to64();
    if s1 > 20_000_000 || s1 == s2 {
    } else if s1 < 10_000 {
        if s2 >= 10_000 && s2 <= 20_000_000 {
            let t2 = s2 * 1_442_695 / 1_000_000;
            let k2 = (t2 / 1_000_000) as nat;
            let n2 = 1_000_000_000_000 - (t2 % 1_000_000) / 2;
            vstd::arithmetic::div_mod::lemma_div_pos_is_pos(s2 * 1_442_695, 1_000_000);
            vstd::arithmetic::div_mod::lemma_div_pos_is_pos(t2, 1_000_000);
            vstd::arithmetic::div_mod::lemma_remainder_lower(t2, 1_000_000);
            vstd::arithmetic::power2::lemma_pow2_pos(k2);
            vstd::arithmetic::div_mod::lemma_div_is_ordered(
                n2,
                1_000_000_000_000,
                pow2(k2) as int,
            );
            vstd::arithmetic::div_mod::lemma_div_is_ordered_by_denominator(
                1_000_000_000_000,
                1,
                pow2(k2) as int,
            );
            vstd::arithmetic::div_mod::lemma_div_is_ordered(
                n2 / (pow2(k2) as int),
                1_000_000_000_000,
                2,
            );
        }
    } else if s2 > 20_000_000 {
        lemma_ber_else_low_bound(s1);
    } else {
        lemma_ber_else_ordered(s1, s2);
    }
}

/// Within the in-range branch the bit error rate stays above the
/// high-SINR floor.
proof fn lemma_ber_else_low_bound(s: int)
    requires
        10_000 <= s <= 20_000_000,
    ensures
        ber_pt_spec(s) >= 100,
{
    vstd::arithmetic::power2::lemma2_to64();
    let t = s * 1_442_695 / 1_000_000;
    assert(s * 1_442_695 <= 20_000_000 * 1_442_695) by (nonlinear_arith)
        requires s <= 20_000_000;
    assert(s * 1_442_695 >= 0) by (nonlinear_arith)
        requires s >= 0;
    vstd::arithmetic::div_mod::lemma_div_is_ordered(
        s * 1_442_695,
        20_000_000int * 1_442_695,
        1_000_000,
    );
    vstd::arithmetic::div_mod::lemma_div_pos_is_pos(s * 1_442_695, 1_000_000);
    assert(t <= 28_853_900);
    vstd::arithmetic::div_mod::lemma_div_is_ordered(t, 28_853_900, 1_000_000);
    vstd::arithmetic::div_mod::lemma_div_pos_is_pos(t, 1_000_000);
    let k = (t / 1_000_000) as nat;
    assert(k <= 28);
    let n = 1_000_000_000_000 - (t % 1_000_000) / 2;
    vstd::arithmetic::div_mod::lemma_remainder_lower(t, 1_000_000);
    vstd::arithmetic::div_mod::lemma_remainder_upper(t, 1_000_000);
    vstd::arithmetic::div_mod::lemma_div_is_ordered(t % 1_000_000, 999_999, 2);
    assert(n >= 999_999_500_001);
    vstd::arithmetic::power2::lemma_pow2_pos(k);
    if k < 28 {
        vstd::arithmetic::power2::lemma_pow2_strictly_increases(k, 28);
    }
    vstd::arithmetic::div_mod::lemma_div_is_ordered_by_denominator(
        n,
        pow2(k) as int,
        pow2(28) as int,
    );
    vstd::arithmetic::div_mod::lemma_div_is_ordered(
        999_999_500_001,
        n,
        pow2(28) as int,
    );
    assert(pow2(28) == 0x10000000);
    vstd::arithmetic::div_mod::lemma_div_is_ordered(
        200,
        n / (pow2(k) as int),
        2,
    );
}

/// The in-range branch of the bit error rate is antitone.
proof fn lemma_ber_else_ordered(s1: int, s2: int)
    requires
        10_000 <= s1 <= s2 <= 20_000_000,
    ensures
        ber_pt_spec(s1) >= ber_pt_spec(s2),
{
    vstd::arithmetic::power2::lemma2_to64();
    let t1 = s1 * 1_442_695 / 1_000_000;
    let t2 = s2 * 1_442_695 / 1_000_000;
    assert(s1 * 1_442_695 <= s2 * 1_442_695) by (nonlinear_arith)
        requires s1 <= s2;
    vstd::arithmetic::div_mod::lemma_div_is_ordered(s1 * 1_442_695, s2 * 1_442_695, 1_000_000);
    vstd::arithmetic::div_mod::lemma_div_is_ordered(t1, t2, 1_000_000);
    vstd::arithmetic::div_mod::lemma_div_pos_is_pos(s1 * 1_442_695, 1_000_000);
    assert(s1 * 1_442_695 >= 0) by (nonlinear_arith)
        requires s1 >= 0;
    let k1 = (t1 / 1_000_000) as nat;
    let k2 = (t2 / 1_000_000) as nat;
    let n1 = 1_000_000_000_000 - (t1 % 1_000_000) / 2;
    let n2 = 1_000_000_000_000 - (t2 % 1_000_000) / 2;
    vstd::arithmetic::div_mod::lemma_fundamental_div_mod(t1, 1_000_000);
    vstd::arithmetic::div_mod::lemma_fundamental_div_mod(t2, 1_000_000);
    vstd::arithmetic::div_mod::lemma_remainder_lower(t1, 1_000_000);
    vstd::arithmetic::div_mod::lemma_remainder_upper(t1, 1_000_000);
    vstd::arithmetic::div_mod::lemma_remainder_lower(t2, 1_000_000);
    vstd::arithmetic::div_mod::lemma_remainder_upper(t2, 1_000_000);
    vstd::arithmetic::power2::lemma_pow2_pos(k1);
    vstd::arithmetic::power2::lemma_pow2_pos(k2);
    if k1 == k2 {
        assert(t1 % 1_000_000 <= t2 % 1_000_000);
        vstd::arithmetic::div_mod::lemma_div_is_ordered(
            (t1 % 1_000_000),
            (t2 % 1_000_000),
            2,
        );
        vstd::arithmetic::div_mod::lemma_div_is_ordered(n2, n1, pow2(k1) as int);
        vstd::arithmetic::div_mod::lemma_div_is_ordered(
            n2 / (pow2(k1) as int),
            n1 / (pow2(k1) as int),
            2,
        );
    } else {
        assert(k1 < k2);
        vstd::arithmetic::power2::lemma_pow2_adds(k1, 1);
        vstd::arithmetic::power2::lemma_pow2_strictly_increases(k1, k2);
        vstd::arithmetic::power2::lemma_pow2_pos((k1 + 1) as nat);
        vstd::arithmetic::div_mod::lemma_div_is_ordered(
            (t1 % 1_000_000),
            999_999,
            2,
        );
        assert(n1 >= 999_999_500_001);
        vstd::arithmetic::div_mod::lemma_div_is_ordered(
            500_000_000_000,
            n1,
            pow2(k1) as int,
        );
        vstd::arithmetic::div_mod::lemma_div_denominator(
            1_000_000_000_000,
            2,
            pow2(k1) as int,
        );
        assert(pow2((k1 + 1) as nat) as int == 2 * pow2(k1));
        let k1p: nat = (k1 + 1) as nat;
        if k1p < k2 {
            vstd::arithmetic::power2::lemma_pow2_strictly_increases(k1p, k2);
        }
        vstd::arithmetic::div_mod::lemma_div_is_ordered_by_denominator(
            1_000_000_000_000,
            pow2((k1 + 1) as nat) as int,
            pow2(k2) as int,
        );
        vstd::arithmetic::div_mod::lemma_div_is_ordered(n2, 1_000_000_000_000, pow2(k2) as int);
        vstd::arithmetic::div_mod::lemma_div_is_ordered(
            n2 / (pow2(k2) as int),
            n1 / (pow2(k1) as int),
            2,
        );
    }
}


/// Every non-negative integer has an integer square root.
pub proof fn lemma_sqrt_exists(x: int)
    requires
        x >= 0,
    ensures
        is_sqrt(x, sqrt_spec(x)),
        sqrt_spec(x) >= 0,
    decreases x,
{
    if x == 0 {
        assert(is_sqrt(0, 0));
    } else {
        lemma_sqrt_exists(x - 1);
        let r = sqrt_spec(x - 1);
        if x == (r + 1) * (r + 1) {
            assert(is_sqrt(x, r + 1)) by (nonlinear_arith)
                requires x == (r + 1) * (r + 1), r >= 0;
        } else {
            assert(is_sqrt(x, r));
        }
    }
}

/// Every ratio of at least one has a floor base-2 logarithm.
pub proof fn lemma_ratio_log2_exists(num: int, den: int)
    requires
        1 <= den <= num,
    ensures
        is_ratio_log2(num, den, ratio_log2(num, den)),
    decreases num,
{
    vstd::arithmetic::power2::lemma2_to64();
    if num < 2 * den {
        assert(den * (pow2(0) as int) == den) by (nonlinear_arith)
            requires (pow2(0) as int) == 1;
        assert(den * (pow2(1) as int) == 2 * den) by (nonlinear_arith)
            requires (pow2(1) as int) == 2;
        assert(is_ratio_log2(num, den, 0));
    } else {
        vstd::arithmetic::div_mod::lemma_fundamental_div_mod(num, 2);
        vstd::arithmetic::div_mod::lemma_remainder_lower(num, 2);
        vstd::arithmetic::div_mod::lemma_remainder_upper(num, 2);
        lemma_ratio_log2_exists(num / 2, den);
        let k = ratio_log2(num / 2, den);
        vstd::arithmetic::power2::lemma_pow2_adds(k, 1);
        assert(den * pow2((k + 1) as nat) == 2 * (den * pow2(k))) by (nonlinear_arith)
            requires pow2((k + 1) as nat) == pow2(k) * 2;
        vstd::arithmetic::power2::lemma_pow2_adds((k + 1) as nat, 1);
        assert(den * pow2((k + 2) as nat) == 2 * (den * pow2((k + 1) as nat)))
            by (nonlinear_arith)
            requires pow2((k + 2) as nat) == pow2((k + 1) as nat) * 2;
        assert(is_ratio_log2(num, den, (k + 1) as nat));
    }
}

/// The milli-log of a ratio of at least one is not negative, and of a
/// ratio of at least two it is at least `0.301`.
pub proof fn lemma_log10_milli_lower(num: int, den: int)
    requires
        1 <= den <= num,
    ensures
        log10_milli_spec(num, den) >= 0,
        num >= 2 * den ==> log10_milli_spec(num, den) >= 301,
{
    lemma_ratio_log2_exists(num, den);
    let k = ratio_log2(num, den);
    let m = num * 0x1_0000_0000 / (den * pow2(k));
    lemma_log2_frac_range(m, 16);
    vstd::arithmetic::power2::lemma2_to64();
    let frac = (log2_frac_spec(m, 16) * 1000 + 32768) / 65536;
    vstd::arithmetic::div_mod::lemma_div_pos_is_pos(
        log2_frac_spec(m, 16) * 1000 + 32768,
        65536,
    );
    let pos = log2_milli_pos_spec(num, den);
    vstd::arithmetic::div_mod::lemma_div_pos_is_pos(pos * 30103 + 50000, 100000);
    if num >= 2 * den {
        if k == 0 {
            assert(den * pow2(1) == 2 * den);
            assert(false);
        }
        assert(pos >= 1000);
        vstd::arithmetic::div_mod::lemma_div_is_ordered(
            1000int * 30103 + 50000,
            pos * 30103 + 50000,
            100000,
        );
    }
}

} // verus!
