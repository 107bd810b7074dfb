//! The binary64 values behind the time texts, computed exactly with
//! integers: a millisecond count turned into an `f64` and divided by 1000,
//! as `ms as f64 / 1000.0` does (each step rounded to the nearest value with
//! 53 significant bits, an exact half to the even one). Such a value `v` is
//! carried as the integer `v * 2^62`, which is exact for every value that
//! can arise here.
use vstd::arithmetic::power2::{
    lemma2_to64, lemma2_to64_rest, lemma_pow2_adds, lemma_pow2_pos, lemma_pow2_strictly_increases,
    lemma_pow2_unfold, pow2,
};
use vstd::prelude::*;

verus! {

/// `n / d` rounded to the nearest integer, an exact half to the even one.
pub open spec fn round_div(n: nat, d: nat) -> nat {
    let q = n / d;
    let r = n % d;
    if 2 * r > d || (2 * r == d && q % 2 == 1) {
        q + 1
    } else {
        q
    }
}

/// The number of binary digits of `x` (0 for 0).
pub open spec fn bits(x: nat) -> nat
    decreases x,
{
    if x == 0 {
        0
    } else {
        1 + bits(x / 2)
    }
}

/// The integer `x` as an `f64`: rounded to 53 significant bits.
pub open spec fn nearest_double_int(x: nat) -> nat {
    if bits(x) <= 53 {
        x
    } else {
        let g = pow2((bits(x) - 53) as nat);
        round_div(x, g) * g
    }
}

/// `2^62` times the `f64` nearest to `d / 1000`: the quotient is rounded at
/// the granularity of 53 significant bits.
pub open spec fn scaled_thousandths(d: nat) -> nat {
    if d == 0 {
        0
    } else {
        let x = d * pow2(62);
        let g = pow2((bits(x / 1000) - 53) as nat);
        round_div(x, 1000 * g) * g
    }
}

/// `2^62` times the magnitude of `ms as f64 / 1000.0`.
pub open spec fn scaled_seconds(ms: int) -> nat {
    scaled_thousandths(
        nearest_double_int(
            if ms < 0 {
                (-ms) as nat
            } else {
                ms as nat
            },
        ),
    )
}

/// `2^62` as a number.
pub open spec fn unit() -> nat {
    0x4000_0000_0000_0000
}

proof fn lemma_unit()
    ensures
        pow2(62) == unit(),
        pow2(64) == 0x1_0000_0000_0000_0000,
        pow2(53) == 0x20_0000_0000_0000,
        pow2(52) == 0x10_0000_0000_0000,
{
    lemma2_to64();
    lemma2_to64_rest();
}

/// A number of `b` binary digits lies in `[2^(b-1), 2^b)`.
pub proof fn lemma_bits(x: nat)
    ensures
        x < pow2(bits(x)),
        x > 0 ==> pow2((bits(x) - 1) as nat) <= x,
        x > 0 ==> bits(x) >= 1,
    decreases x,
{
    lemma_pow2_pos(0);
    lemma2_to64();
    if x > 0 {
        lemma_bits(x / 2);
        lemma_pow2_unfold(bits(x));
        if x / 2 > 0 {
            lemma_pow2_unfold((bits(x) - 1) as nat);
        }
    }
}

/// Below `2^k` a number has at most `k` digits; from `2^k` on, more than `k`.
pub proof fn lemma_bits_bounds(x: nat, k: nat)
    ensures
        x < pow2(k) ==> bits(x) <= k,
        pow2(k) <= x ==> bits(x) > k,
{
    lemma_bits(x);
    if x < pow2(k) && bits(x) > k {
        if x > 0 {
            if (bits(x) - 1) as nat > k {
                lemma_pow2_strictly_increases(k, (bits(x) - 1) as nat);
            }
        }
    }
    if pow2(k) <= x && bits(x) <= k {
        if bits(x) < k {
            lemma_pow2_strictly_increases(bits(x), k);
        }
    }
}

/// `2^a <= 2^b` when `a <= b`.
proof fn lemma_pow2_le(a: nat, b: nat)
    requires
        a <= b,
    ensures
        pow2(a) <= pow2(b),
{
    if a < b {
        lemma_pow2_strictly_increases(a, b);
    }
}

/// The rounded quotient is the floor or one above it.
proof fn lemma_round_div(n: nat, d: nat)
    requires
        d > 0,
    ensures
        round_div(n, d) * d <= n + d,
        n <= round_div(n, d) * d + d,
        round_div(n, d) <= n / d + 1,
{
    let q = n / d;
    assert(n == d * q + n % d) by (nonlinear_arith)
        requires
            d > 0,
            q == n / d,
    ;
    assert((q + 1) * d == q * d + d) by (nonlinear_arith);
    assert(q * d == d * q) by (nonlinear_arith);
}

/// The number of binary digits of `x`.
fn bit_len(x: u128) -> (n: u32)
    ensures
        n as nat == bits(x as nat),
        n <= 128,
{
    proof {
        lemma2_to64();
        lemma_pow2_adds(64, 64);
        lemma_bits_bounds(x as nat, 128);
    }
    let mut t = x;
    let mut n: u32 = 0;
    while t > 0
        invariant
            n + bits(t as nat) == bits(x as nat),
            bits(x as nat) <= 128,
        decreases t,
    {
        t = t / 2;
        n = n + 1;
    }
    n
}

/// `2^k`.
fn pow2_u128(k: u32) -> (p: u128)
    requires
        k <= 120,
    ensures
        p == pow2(k as nat),
{
    proof {
        lemma2_to64();
        lemma_pow2_adds(56, 64);
        lemma2_to64_rest();
    }
    let mut p: u128 = 1;
    let mut i: u32 = 0;
    while i < k
        invariant
            i <= k <= 120,
            p == pow2(i as nat),
            pow2(120) == 0x100_0000_0000_0000_0000_0000_0000_0000,
        decreases k - i,
    {
        proof {
            lemma_pow2_unfold((i + 1) as nat);
            lemma_pow2_le((i + 1) as nat, 120);
        }
        p = p * 2;
        i = i + 1;
    }
    p
}

/// `n / d` rounded half to even.
pub fn round_div_u128(n: u128, d: u128) -> (q: u128)
    requires
        0 < d <= 0x100_0000_0000_0000_0000_0000_0000_0000,
    ensures
        q == round_div(n as nat, d as nat),
{
    let q = n / d;
    let r = n % d;
    assert(r < d);
    if 2 * r > d || (2 * r == d && q % 2 == 1) {
        assert(q < 0xffff_ffff_ffff_ffff_ffff_ffff_ffff_ffff) by {
            assert(d >= 2);
            assert(n / d <= n / 2) by (nonlinear_arith)
                requires
                    d >= 2,
            ;
        }
        q + 1
    } else {
        q
    }
}

/// `ms as f64` for a magnitude `a` of a millisecond count: the integer
/// rounded to 53 significant bits.
fn nearest_double_u64(a: u64) -> (d: u128)
    ensures
        d == nearest_double_int(a as nat),
        d <= 0x1_0000_0000_0000_0000,
{
    proof {
        lemma_unit();
        lemma_bits(a as nat);
        lemma_bits_bounds(a as nat, 64);
    }
    let n = bit_len(a as u128);
    if n <= 53 {
        proof {
            lemma_pow2_le(bits(a as nat), 64);
        }
        return a as u128;
    }
    let s = n - 53;
    let g = pow2_u128(s);
    proof {
        lemma_pow2_pos(s as nat);
        lemma_pow2_le(s as nat, 64);
    }
    let q = round_div_u128(a as u128, g);
    proof {
        lemma_round_div(a as nat, g as nat);
        lemma_pow2_adds(s as nat, 53);
        lemma_pow2_le(n as nat, 64);
        // a < 2^n = g * 2^53, so the floor quotient is below 2^53.
        assert((a as nat) / (g as nat) < pow2(53)) by (nonlinear_arith)
            requires
                (a as nat) < pow2(53) * (g as nat),
                g > 0,
        ;
        assert(q * g <= pow2(53) * g) by (nonlinear_arith)
            requires
                q <= pow2(53),
                g > 0,
        ;
    }
    q * g
}

/// `2^62` times the `f64` nearest `d / 1000`, for `d` up to `2^64`.
fn scaled_thousandths_u128(d: u128) -> (v: u128)
    requires
        d <= 0x1_0000_0000_0000_0000,
    ensures
        v == scaled_thousandths(d as nat),
        v <= 0x20_0000_0000_0000_0000_0000_0000_0000,
{
    if d == 0 {
        return 0;
    }
    proof {
        lemma_unit();
    }
    let x: u128 = d * 0x4000_0000_0000_0000;
    let big_x = x / 1000;
    let n = bit_len(big_x);
    proof {
        assert(big_x >= 0x10_0000_0000_0000);
        lemma_bits_bounds(big_x as nat, 52);
        lemma2_to64();
        lemma_pow2_adds(53, 64);
        lemma2_to64_rest();
        assert(pow2(117) == 0x20_0000_0000_0000_0000_0000_0000_0000);
        assert(big_x < 0x20_0000_0000_0000_0000_0000_0000_0000);
        lemma_bits_bounds(big_x as nat, 117);
    }
    let g = pow2_u128(n - 53);
    proof {
        lemma_pow2_le((n - 53) as nat, 64);
        lemma_pow2_pos((n - 53) as nat);
    }
    let q = round_div_u128(x, 1000 * g);
    proof {
        lemma_round_div(x as nat, (1000 * g) as nat);
        assert(q * (1000 * g) == (q * g) * 1000) by (nonlinear_arith);
    }
    q * g
}

/// `2^62` times the magnitude of `ms as f64 / 1000.0`.
pub fn scaled_seconds_exec(ms: i64) -> (v: u128)
    ensures
        v == scaled_seconds(ms as int),
        v <= 0x20_0000_0000_0000_0000_0000_0000_0000,
{
    let a: u64 = if ms < 0 {
        ((-(ms + 1)) as u64) + 1
    } else {
        ms as u64
    };
    let d = nearest_double_u64(a);
    scaled_thousandths_u128(d)
}

} // verus!
