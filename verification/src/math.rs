use vstd::arithmetic::div_mod::*;
use vstd::arithmetic::power2::*;
use vstd::bits::*;
use vstd::prelude::*;

verus! {

/// `root` is the integer square root of `val`: the largest integer whose square does not exceed it.
pub open spec fn is_isqrt(val: int, root: int) -> bool {
    &&& 0 <= root
    &&& root * root <= val
    &&& val < (root + 1) * (root + 1)
}

/// One step of the digit-by-digit method: with `t` the weight of the bit being decided
/// (so that the current trial bit is `t * t / 4`), the new partial root after the step.
proof fn lemma_sqrt_step(val: int, y: int, t: int, res: int, op: int, one: int)
    requires
        t >= 2,
        t % 2 == 0,
        t * t == 4 * one,
        res == y * t * t,
        op == val - y * y * t * t,
        val < (y + 1) * (y + 1) * t * t,
        y >= 0,
    ensures
        (2 * y + 1) * (t / 2) + t / 2 == y * t + t,
        (2 * y) * (t / 2) + t / 2 <= y * t + t,
        op >= res + one ==> {
            let th = t / 2;
            &&& res / 2 + one == (2 * y + 1) * th * th
            &&& op - (res + one) == val - (2 * y + 1) * (2 * y + 1) * th * th
            &&& val < (2 * y + 2) * (2 * y + 2) * th * th
        },
        op < res + one ==> {
            let th = t / 2;
            &&& res / 2 == (2 * y) * th * th
            &&& op == val - (2 * y) * (2 * y) * th * th
            &&& val < (2 * y + 1) * (2 * y + 1) * th * th
        },
{
    let th = t / 2;
    assert(t == 2 * th);
    assert(one == th * th) by (nonlinear_arith)
        requires t * t == 4 * one, t == 2 * th;
    assert(res == 4 * (y * th * th)) by (nonlinear_arith)
        requires res == y * t * t, t == 2 * th;
    assert(res / 2 == 2 * y * th * th) by (nonlinear_arith)
        requires res == 4 * (y * th * th);
    assert(y * y * t * t == 4 * (y * y * th * th)) by (nonlinear_arith)
        requires t == 2 * th;
    assert((y + 1) * (y + 1) * t * t == (2 * y + 2) * (2 * y + 2) * th * th) by (nonlinear_arith)
        requires t == 2 * th;
    assert((2 * y + 1) * (2 * y + 1) * th * th == 4 * (y * y * th * th) + 4 * (y * th * th) + th * th)
        by (nonlinear_arith);
    assert((2 * y) * (2 * y) * th * th == 4 * (y * y * th * th)) by (nonlinear_arith);
    assert((2 * y + 1) * th * th == 2 * (y * th * th) + th * th) by (nonlinear_arith);
    assert((2 * y) * th * th == 2 * (y * th * th)) by (nonlinear_arith);
    assert((2 * y + 1) * th + th == y * t + t) by (nonlinear_arith)
        requires t == 2 * th;
    assert((2 * y) * th + th <= y * t + t) by (nonlinear_arith)
        requires t == 2 * th, th >= 1;
}

/// Bounds that keep `res + one` inside `u32` during the digit-by-digit loop.
proof fn lemma_sqrt_no_overflow(y: int, t: int, one: int)
    requires
        t >= 2,
        t * t == 4 * one,
        y >= 0,
        y * t + t <= 0x10000,
    ensures
        y * t * t + one < 0x1_0000_0000,
{
    assert(y * t <= 0x10000 - t);
    assert(y * t * t <= (0x10000 - t) * t) by (nonlinear_arith)
        requires y * t <= 0x10000 - t, t >= 2;
    assert((0x10000 - t) * t <= 0x4000_0000) by (nonlinear_arith)
        requires t >= 2;
    assert(t <= 0x10000) by (nonlinear_arith)
        requires y * t + t <= 0x10000, y >= 0, t >= 2;
    assert(t * t <= 0x1_0000_0000) by (nonlinear_arith)
        requires t <= 0x10000, t >= 2;
}

/// Powers of two used by the square root: halving the bit weight `pow2(e)`
/// moves the trial bit `pow2(2e - 2)` down by a factor of four.
proof fn lemma_sqrt_weights(e: nat)
    requires
        e >= 1,
    ensures
        pow2(e) == 2 * pow2((e - 1) as nat),
        pow2(e) * pow2(e) == 4 * pow2((2 * e - 2) as nat),
        pow2((e - 1) as nat) * pow2((e - 1) as nat) == pow2((2 * e - 2) as nat),
        e >= 2 ==> pow2((2 * e - 2) as nat) == 4 * pow2((2 * e - 4) as nat),
        e == 1 ==> pow2((2 * e - 2) as nat) == 1,
{
    lemma2_to64();
    lemma_pow2_unfold(e);
    lemma_pow2_adds(e, e);
    lemma_pow2_adds((e - 1) as nat, (e - 1) as nat);
    lemma_pow2_adds((2 * e - 2) as nat, 2);
    if e >= 2 {
        lemma_pow2_adds((2 * e - 4) as nat, 2);
    }
}

/// The weight of the trial bit while the loops run: `pow2(2e - 2)`, or zero once `e` reaches zero.
spec fn trial_bit(e: nat) -> nat {
    if e >= 1 { pow2((2 * e - 2) as nat) } else { 0 }
}

/// SWI 0x0D, integer square root: the largest `r` with `r * r <= val`,
/// computed bit by bit from the most significant pair of bits down.
pub fn SVC_Sqrt(val: u32) -> (root: u32)
    ensures
        is_isqrt(val as int, root as int),
{
    let mut op = val;
    let mut res: u32 = 0;
    assert(1u32 << 30u32 == 0x4000_0000) by (bit_vector);
    let mut one: u32 = 1u32 << 30;
    let ghost mut e: nat = 16;
    proof {
        lemma2_to64();
        lemma2_to64_rest();
        assert(trial_bit(16) == pow2(30));
    }

    // `one` starts at the highest power of four not above the argument
    while one > op
        invariant
            op == val,
            e <= 16,
            one == trial_bit(e),
            val < pow2(e) * pow2(e),
        decreases one,
    {
        proof {
            assert(one >> 2u32 == one / 4) by (bit_vector);
            lemma_sqrt_weights(e);
        }
        one = one >> 2;
        proof {
            e = (e - 1) as nat;
        }
    }

    let ghost mut y: int = 0;
    proof {
        if e >= 1 {
            lemma_sqrt_weights(e);
        }
        lemma_pow2_pos(e);
        assert(pow2(16) == 0x10000) by {
            lemma2_to64();
        }
        if e < 16 {
            lemma_pow2_strictly_increases(e, 16);
        }
        assert((y + 1) * (y + 1) * pow2(e) * pow2(e) == pow2(e) * pow2(e)) by (nonlinear_arith)
            requires y == 0;
    }
    while one != 0
        invariant
            e <= 16,
            one == trial_bit(e),
            y >= 0,
            res == y * pow2(e) * pow2(e),
            op == val - y * y * pow2(e) * pow2(e),
            val < (y + 1) * (y + 1) * pow2(e) * pow2(e),
            y * pow2(e) + pow2(e) <= 0x10000,
        decreases one,
    {
        let ghost t = pow2(e) as int;
        proof {
            lemma_sqrt_weights(e);
            assert(t >= 2) by {
                lemma_pow2_pos((e - 1) as nat);
            }
            lemma_sqrt_no_overflow(y, t, one as int);
            lemma_sqrt_step(val as int, y, t, res as int, op as int, one as int);
            assert(res >> 1u32 == res / 2) by (bit_vector);
            assert(one >> 2u32 == one / 4) by (bit_vector);
        }
        if op >= res + one {
            op -= res + one;
            res = (res >> 1) + one;
            proof {
                y = 2 * y + 1;
            }
        } else {
            res >>= 1;
            proof {
                y = 2 * y;
            }
        }
        one >>= 2;
        proof {
            e = (e - 1) as nat;
            assert(t / 2 == pow2(e));
        }
    }
    proof {
        if e >= 1 {
            lemma_pow2_pos((2 * e - 2) as nat);
        }
        assert(e == 0);
        assert(pow2(e) == 1) by {
            lemma2_to64();
        }
        assert(y * pow2(e) * pow2(e) == y) by (nonlinear_arith)
            requires pow2(e) == 1;
        assert(y * y * pow2(e) * pow2(e) == y * y) by (nonlinear_arith)
            requires pow2(e) == 1;
        assert((y + 1) * (y + 1) * pow2(e) * pow2(e) == (y + 1) * (y + 1)) by (nonlinear_arith)
            requires pow2(e) == 1;
        assert(res * res <= val) by (nonlinear_arith)
            requires res == y, op == val - y * y, op >= 0;
    }
    res
}

/// Absolute value of an integer.
pub open spec fn abs(x: int) -> int {
    if x < 0 { -x } else { x }
}

/// Quotient of `n / d` rounded toward zero, as C and Rust define integer division.
pub open spec fn trunc_div(n: int, d: int) -> int {
    if (n < 0) != (d < 0) { -(abs(n) / abs(d)) } else { abs(n) / abs(d) }
}

/// Remainder that goes with `trunc_div`: it takes the sign of the numerator.
pub open spec fn trunc_rem(n: int, d: int) -> int {
    if n < 0 { -(abs(n) % abs(d)) } else { abs(n) % abs(d) }
}

/// The quotient that SWI 0x09 returns: the truncated quotient in 32-bit two's complement
/// (only `i32::MIN / -1` wraps, to `i32::MIN`).
pub open spec fn div_quotient(num: i32, den: i32) -> i32 {
    trunc_div(num as int, den as int) as i32
}

/// The remainder that SWI 0x09 returns.
pub open spec fn div_remainder(num: i32, den: i32) -> i32 {
    trunc_rem(num as int, den as int) as i32
}

/// The 64-bit value whose low word holds `lo` and whose high word holds `hi`,
/// as an ARM function returns a pair in r0 (low) and r1 (high).
pub open spec fn pair_to_i64(lo: i32, hi: i32) -> int {
    hi as int * 0x1_0000_0000 + (lo as u32) as int
}

/// Magnitude of a 32-bit integer as computed by `0 - x` on its bits.
proof fn lemma_magnitude(x: i32)
    ensures
        x < 0 ==> (0u32.wrapping_sub(x as u32)) as int == -(x as int),
        x >= 0 ==> (x as u32) as int == x as int,
        abs(x as int) <= 0x8000_0000,
{
    if x < 0 {
        assert((x as u32) as int == x as int + 0x1_0000_0000) by (bit_vector)
            requires x < 0i32;
    } else {
        assert((x as u32) as int == x as int) by (bit_vector)
            requires x >= 0i32;
    }
}

/// One step of restoring division: shifting in the next numerator bit and
/// subtracting the divisor when it fits keeps quotient and remainder exact.
proof fn lemma_div_step(n: nat, d: nat, i: nat, q: nat, r: nat)
    requires
        d > 0,
        r == (n / pow2(i + 1)) % d,
        q == (n / pow2(i + 1)) / d,
    ensures
        ({
            let p = n / pow2(i);
            let r2 = 2 * r + p % 2;
            &&& r2 >= d ==> (p / d == 2 * q + 1 && p % d == r2 - d)
            &&& r2 < d ==> (p / d == 2 * q && p % d == r2)
            &&& (n / pow2(i + 1)) == p / 2
        }),
{
    let p = n / pow2(i);
    lemma_pow2_pos(i);
    lemma_pow2_adds(i, 1);
    lemma2_to64();
    lemma_div_denominator(n as int, pow2(i) as int, 2);
    let big = n / pow2(i + 1);
    assert(big == p / 2);
    lemma_fundamental_div_mod(p as int, 2);
    lemma_fundamental_div_mod(big as int, d as int);
    let r2 = 2 * r + p % 2;
    assert(p == 2 * big + p % 2);
    assert(big == d * q + r);
    assert(p == d * (2 * q) + r2) by (nonlinear_arith)
        requires p == 2 * big + p % 2, big == d * q + r, r2 == 2 * r + p % 2;
    if r2 >= d {
        assert(p == (2 * q + 1) * d + (r2 - d)) by (nonlinear_arith)
            requires p == d * (2 * q) + r2;
        lemma_fundamental_div_mod_converse(p as int, d as int, (2 * q + 1) as int, (r2 - d) as int);
    } else {
        assert(p == (2 * q) * d + r2) by (nonlinear_arith)
            requires p == d * (2 * q) + r2;
        lemma_fundamental_div_mod_converse(p as int, d as int, (2 * q) as int, r2 as int);
    }
}

/// Setting a bit below which nothing is set, and above which only higher bits are, is an addition.
proof fn lemma_set_bit_is_add(q: u32, i: u32)
    requires
        i < 32,
        (q as nat) % pow2((i + 1) as nat) == 0,
    ensures
        (q | (1u32 << i)) as nat == q as nat + pow2(i as nat),
        (1u32 << i) as nat == pow2(i as nat),
{
    lemma_u32_pow2_no_overflow(i as nat);
    lemma_u32_shl_is_mul(1u32, i);
    let m: u64 = 1u64 << (i as u64);
    lemma_u64_pow2_no_overflow(i as nat);
    lemma_u64_shl_is_mul(1u64, i as u64);
    lemma_pow2_adds(i as nat, 1);
    lemma2_to64();
    assert((q as u64) % ((2 * m) as u64) == 0);
    assert((q | (1u32 << i)) as u64 == (q as u64) + m) by (bit_vector)
        requires i < 32u32, m == 1u64 << (i as u64), (q as u64) % ((2 * m) as u64) == 0;
}

/// Splitting a 64-bit word into its two 32-bit halves.
proof fn lemma_pair(lo: i32, hi: i32)
    ensures
        (((((hi as u32) as u64) << 32u64) | ((lo as u32) as u64)) as i64) as int == pair_to_i64(lo, hi),
{
    assert((((((hi as u32) as u64) << 32u64) | ((lo as u32) as u64)) as i64) as int
        == hi as int * 0x1_0000_0000 + (lo as u32) as int) by (bit_vector);
}

/// SWI 0x09, signed division. Division by zero returns 0; otherwise the result holds
/// the truncated quotient in its low word and the remainder, with the sign of the
/// numerator, in its high word.
pub fn SVC_Div(numerator: i32, denominator: i32) -> (result: i64)
    ensures
        denominator == 0 ==> result == 0,
        denominator != 0 ==> result as int == pair_to_i64(
            div_quotient(numerator, denominator),
            div_remainder(numerator, denominator),
        ),
{
    if denominator == 0 {
        return 0;
    }

    let n_neg = numerator < 0;
    let d_neg = denominator < 0;

    proof {
        lemma_magnitude(numerator);
        lemma_magnitude(denominator);
    }
    let abs_n = if n_neg { 0u32.wrapping_sub(numerator as u32) } else { numerator as u32 };
    let abs_d = if d_neg { 0u32.wrapping_sub(denominator as u32) } else { denominator as u32 };
    assert(abs_n == abs(numerator as int));
    assert(abs_d == abs(denominator as int));

    // long division, one numerator bit at a time from the top
    let mut quotient: u32 = 0;
    let mut remainder: u32 = 0;
    let mut i: u32 = 32;
    proof {
        lemma2_to64();
        lemma_basic_div(abs_n as int, pow2(32) as int);
        assert(abs_n as nat / pow2(32) == 0);
        lemma_basic_div(0, abs_d as int);
    }
    while i > 0
        invariant
            i <= 32,
            0 < abs_d <= 0x8000_0000,
            quotient as nat == ((abs_n as nat / pow2(i as nat)) / abs_d as nat) * pow2(i as nat),
            remainder as nat == (abs_n as nat / pow2(i as nat)) % abs_d as nat,
        decreases i,
    {
        i -= 1;
        let ghost q_old: nat = (abs_n as nat / pow2((i + 1) as nat)) / abs_d as nat;
        proof {
            lemma_div_step(abs_n as nat, abs_d as nat, i as nat, q_old, remainder as nat);
            lemma_u32_shr_is_div(abs_n, i);
            lemma_pow2_adds(i as nat, 1);
            lemma2_to64();
            lemma_pow2_pos(i as nat);
            assert(remainder < 0x8000_0000);
            assert(remainder << 1u32 == 2 * remainder) by (bit_vector)
                requires remainder < 0x8000_0000u32;
            let x = abs_n >> i;
            assert(x & 1 == x % 2) by (bit_vector);
            assert(((remainder << 1u32) | (x & 1)) == 2 * remainder + (x & 1)) by (bit_vector)
                requires remainder < 0x8000_0000u32;
        }
        remainder <<= 1;
        remainder |= (abs_n >> i) & 1;

        if remainder >= abs_d {
            proof {
                assert(quotient as nat == (2 * q_old) * pow2(i as nat)) by (nonlinear_arith)
                    requires quotient as nat == q_old * pow2((i + 1) as nat),
                        pow2((i + 1) as nat) == pow2(i as nat) * 2;
                assert((quotient as nat) % pow2((i + 1) as nat) == 0) by {
                    lemma_mod_multiples_basic(q_old as int, pow2((i + 1) as nat) as int);
                }
                lemma_set_bit_is_add(quotient, i);
                assert(quotient as nat + pow2(i as nat) == (2 * q_old + 1) * pow2(i as nat))
                    by (nonlinear_arith)
                    requires quotient as nat == (2 * q_old) * pow2(i as nat);
            }
            remainder -= abs_d;
            quotient |= 1 << i;
        } else {
            proof {
                assert(quotient as nat == (2 * q_old) * pow2(i as nat)) by (nonlinear_arith)
                    requires quotient as nat == q_old * pow2((i + 1) as nat),
                        pow2((i + 1) as nat) == pow2(i as nat) * 2;
            }
        }
    }
    proof {
        lemma2_to64();
        assert(i == 0);
        lemma_fundamental_div_mod_converse(abs_n as int, 1, abs_n as int, 0);
        assert(abs_n as nat / pow2(0) == abs_n);
        assert(quotient as nat == (abs_n as nat / abs_d as nat) * 1);
        vstd::arithmetic::mul::lemma_mul_basics((abs_n as nat / abs_d as nat) as int);
        assert(quotient == abs_n / abs_d);
        assert(remainder == abs_n % abs_d);
        assert(remainder < 0x8000_0000);
        assert(quotient <= 0x8000_0000) by {
            lemma_div_is_ordered_by_denominator(abs_n as int, 1, abs_d as int);
        }
        lemma_casts(quotient, remainder);
    }

    // the quotient is negative when the signs differ
    let final_q = if n_neg ^ d_neg {
        0i32.wrapping_sub(quotient as i32)
    } else {
        quotient as i32
    };

    // the remainder takes the sign of the numerator
    let final_r = if n_neg {
        0i32.wrapping_sub(remainder as i32)
    } else {
        remainder as i32
    };

    proof {
        assert(final_q == div_quotient(numerator, denominator));
        assert(final_r == div_remainder(numerator, denominator));
        lemma_pair(final_q, final_r);
    }
    // an ARM function returns a 64-bit value in r0 (low word) and r1 (high word)
    (((final_r as u32 as u64) << 32) | (final_q as u32 as u64)) as i64
}

/// Reinterpreting an unsigned magnitude of at most 2^31 as a signed word, and negating it.
proof fn lemma_casts(q: u32, r: u32)
    requires
        q <= 0x8000_0000,
        r < 0x8000_0000,
    ensures
        (r as i32) as int == r as int,
        (0i32.wrapping_sub(r as i32)) as int == -(r as int),
        q < 0x8000_0000 ==> (q as i32) as int == q as int,
        q == 0x8000_0000 ==> (q as i32) as int == -0x8000_0000,
        (0i32.wrapping_sub(q as i32)) as int == -(q as int),
        (q as int) as i32 == q as i32,
        (-(q as int)) as i32 as int == -(q as int),
{
    assert((r as i32) as int == r as int) by (bit_vector)
        requires r < 0x8000_0000u32;
    if q < 0x8000_0000 {
        assert((q as i32) as int == q as int) by (bit_vector)
            requires q < 0x8000_0000u32;
    } else {
        assert((q as i32) as int == -0x8000_0000) by (bit_vector)
            requires q == 0x8000_0000u32;
    }
    assert((q as int) as i32 == q as i32) by (bit_vector);
    assert((-(q as int)) as i32 as int == -(q as int)) by (bit_vector)
        requires q <= 0x8000_0000u32;
}

/// Division law of SWI 0x09: wherever the quotient fits in 32 bits (every nonzero
/// denominator except `i32::MIN / -1`), quotient times denominator plus remainder gives
/// back the numerator, the remainder is smaller in magnitude than the denominator and
/// has the sign of the numerator, and the quotient is rounded toward zero.
pub proof fn law_div_reconstructs(num: i32, den: i32)
    requires
        den != 0,
        !(num == i32::MIN && den == -1),
    ensures
        div_quotient(num, den) as int * den as int + div_remainder(num, den) as int == num as int,
        abs(div_remainder(num, den) as int) < abs(den as int),
        div_remainder(num, den) != 0 ==> (div_remainder(num, den) < 0) == (num < 0),
        abs(div_quotient(num, den) as int * den as int) <= abs(num as int),
        div_quotient(num, den) as int == trunc_div(num as int, den as int),
{
    let n = abs(num as int);
    let d = abs(den as int);
    let q = n / d;
    let r = n % d;
    lemma_fundamental_div_mod(n, d);
    lemma_mod_pos_bound(n, d);
    lemma_div_pos_is_pos(n, d);
    assert(q <= n) by {
        lemma_div_is_ordered_by_denominator(n, 1, d);
        lemma_fundamental_div_mod_converse(n, 1, n, 0);
    }
    // the truncated quotient fits in 32 bits, so the casts are exact
    if q == 0x8000_0000 {
        assert(d == 1) by (nonlinear_arith)
            requires n == d * q + r, n <= 0x8000_0000, q == 0x8000_0000, r >= 0, d >= 1;
        assert(num == i32::MIN);
        assert(den == -1 || den == 1);
    }
    assert(trunc_div(num as int, den as int) as i32 as int == trunc_div(num as int, den as int));
    assert(trunc_rem(num as int, den as int) as i32 as int == trunc_rem(num as int, den as int));
    assert(q * d == d * q) by (nonlinear_arith);
    let qs = trunc_div(num as int, den as int);
    let dd = den as int;
    if den < 0 {
        assert(dd == -d);
    } else {
        assert(dd == d);
    }
    assert(qs * dd == (if num < 0 { -(q * d) } else { q * d })) by (nonlinear_arith)
        requires
            qs == (if (num < 0) != (den < 0) { -q } else { q }),
            dd == (if den < 0 { -d } else { d }),
    ;
}

} // verus!
