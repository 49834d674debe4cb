//! Fixed-point base-10 logarithm on exact rationals.
//!
//! `log10_fixed(n, d)` computes `SCALE * log10(n / d)` for `1 <= d <= n`,
//! rounded down bit by bit: the integer part by repeated division by ten,
//! then sixteen binary digits of the fractional part by repeated squaring,
//! the running value renormalized to a 40-bit denominator before each
//! squaring. The result is monotone in the rational `n / d` and is zero
//! exactly when every extracted digit is zero; `n == d` gives zero.

use vstd::prelude::*;
use vstd::arithmetic::div_mod::{
    lemma_div_by_multiple, lemma_div_is_ordered, lemma_div_multiples_vanish,
    lemma_div_pos_is_pos, lemma_fundamental_div_mod, lemma_mod_bound, lemma_multiply_divide_lt,
};

verus! {

/// One unit of the result stands for 1/65536 of a decade.
pub const SCALE: u64 = 65536;

/// Powers of ten.
pub open spec fn pow10(e: nat) -> nat
    decreases e,
{
    if e == 0 {
        1
    } else {
        10 * pow10((e - 1) as nat)
    }
}

/// Powers of two, for the weights of the fractional digits.
pub open spec fn bit_weight(e: nat) -> nat
    decreases e,
{
    if e == 0 {
        1
    } else {
        2 * bit_weight((e - 1) as nat)
    }
}

/// How many times `n / d` can be divided by ten before falling under ten:
/// the integer part of its base-10 logarithm.
pub open spec fn ip_steps(n: nat, d: nat) -> nat
    decreases n - d
        when 1 <= d
{
    if n < 10 * d {
        0
    } else {
        1 + ip_steps(n, 10 * d)
    }
}

/// The value `a / b`, renormalized to denominator `2^40` and rounded down.
pub open spec fn renorm(a: nat, b: nat) -> nat {
    (a * 0x100_0000_0000) / b
}

/// `k` rounds of square-and-compare digit extraction: the first `k`
/// binary digits of `log10(a / b)` for `1 <= a / b < 10`, as a `k`-bit
/// integer, each round rounding the running value down to a 40-bit
/// denominator.
pub open spec fn frac_bits(a: nat, b: nat, k: nat) -> nat
    decreases k,
{
    if k == 0 {
        0
    } else {
        let a1 = renorm(a, b);
        let sq = a1 * a1;
        if sq >= 0xa_0000_0000_0000_0000_0000 {
            bit_weight((k - 1) as nat) + frac_bits(sq, 0xa_0000_0000_0000_0000_0000, (k - 1) as nat)
        } else {
            frac_bits(sq, 0x1_0000_0000_0000_0000_0000, (k - 1) as nat)
        }
    }
}

/// `SCALE * log10(n / d)`, rounded down digit by digit.
pub open spec fn spec_log10(n: nat, d: nat) -> nat {
    let ip = ip_steps(n, d);
    ip * 65536 + frac_bits(n, d * pow10(ip), 16)
}

pub proof fn lemma_pow10_pos(e: nat)
    ensures
        pow10(e) >= 1,
    decreases e,
{
    if e > 0 {
        lemma_pow10_pos((e - 1) as nat);
    }
}

pub proof fn lemma_bit_weight_pos(e: nat)
    ensures
        bit_weight(e) >= 1,
    decreases e,
{
    if e > 0 {
        lemma_bit_weight_pos((e - 1) as nat);
    }
}

/// The fractional digits fill fewer than `k` bits.
pub proof fn lemma_frac_ub(a: nat, b: nat, k: nat)
    ensures
        frac_bits(a, b, k) < bit_weight(k),
    decreases k,
{
    if k == 0 {
        lemma_bit_weight_pos(k);
    } else {
        let a1 = renorm(a, b);
        let sq = a1 * a1;
        if sq >= 0xa_0000_0000_0000_0000_0000 {
            lemma_frac_ub(sq, 0xa_0000_0000_0000_0000_0000, (k - 1) as nat);
        } else {
            lemma_frac_ub(sq, 0x1_0000_0000_0000_0000_0000, (k - 1) as nat);
        }
    }
}

/// A value of exactly one has no fractional digits.
pub proof fn lemma_frac_one(b: nat, k: nat)
    requires
        b >= 1,
    ensures
        frac_bits(b, b, k) == 0,
    decreases k,
{
    if k > 0 {
        lemma_div_multiples_vanish(0x100_0000_0000, b as int);
        assert(b * 0x100_0000_0000 == 0x100_0000_0000 * b) by (nonlinear_arith);
        assert(renorm(b, b) == 0x100_0000_0000);
        lemma_frac_one(0x1_0000_0000_0000_0000_0000, (k - 1) as nat);
    }
}

/// `log10(n / n) == 0`.
pub proof fn lemma_log10_one(n: nat)
    requires
        n >= 1,
    ensures
        spec_log10(n, n) == 0,
{
    assert(ip_steps(n, n) == 0);
    assert(n * pow10(0) == n) by (nonlinear_arith);
    lemma_frac_one(n, 16);
}

/// Renormalization is monotone in the rational `a / b`.
proof fn lemma_renorm_mono(a1: nat, b1: nat, a2: nat, b2: nat)
    requires
        b1 >= 1,
        b2 >= 1,
        a1 * b2 <= a2 * b1,
    ensures
        renorm(a1, b1) <= renorm(a2, b2),
{
    let m: int = 0x100_0000_0000;
    let q: int = (a1 as int * m) / (b1 as int);
    lemma_fundamental_div_mod(a1 as int * m, b1 as int);
    lemma_mod_bound(a1 as int * m, b1 as int);
    assert(q * b1 <= a1 as int * m);
    assert(q * b1 * b2 <= a1 as int * m * b2) by (nonlinear_arith)
        requires
            q * b1 <= a1 as int * m,
            b2 >= 1,
    ;
    assert(a1 as int * m * b2 == (a1 * b2) as int * m && a2 as int * m * b1 == (a2 * b1) as int * m
        && q * b1 * b2 == q * b2 * b1) by (nonlinear_arith);
    assert((a1 * b2) as int * m <= (a2 * b1) as int * m) by (nonlinear_arith)
        requires
            a1 * b2 <= a2 * b1,
            m >= 0,
    ;
    assert(q * b2 <= a2 as int * m) by (nonlinear_arith)
        requires
            q * b2 * b1 <= a2 as int * m * b1,
            b1 >= 1,
    ;
    lemma_div_pos_is_pos(a1 as int * m, b1 as int);
    lemma_div_is_ordered(q * b2, a2 as int * m, b2 as int);
    lemma_div_by_multiple(q, b2 as int);
}

/// The digit extraction is monotone in the rational `a / b`.
proof fn lemma_frac_mono(a1: nat, b1: nat, a2: nat, b2: nat, k: nat)
    requires
        b1 >= 1,
        b2 >= 1,
        a1 * b2 <= a2 * b1,
    ensures
        frac_bits(a1, b1, k) <= frac_bits(a2, b2, k),
    decreases k,
{
    if k > 0 {
        let r1 = renorm(a1, b1);
        let r2 = renorm(a2, b2);
        lemma_renorm_mono(a1, b1, a2, b2);
        let s1 = r1 * r1;
        let s2 = r2 * r2;
        assert(s1 <= s2) by (nonlinear_arith)
            requires
                0 <= r1,
                r1 <= r2,
                s1 == r1 * r1,
                s2 == r2 * r2,
        ;
        let ten80: nat = 0xa_0000_0000_0000_0000_0000;
        let one80: nat = 0x1_0000_0000_0000_0000_0000;
        if s1 >= ten80 {
            assert(s2 >= ten80);
            assert(s1 * ten80 <= s2 * ten80) by (nonlinear_arith)
                requires
                    s1 <= s2,
            ;
            lemma_frac_mono(s1, ten80, s2, ten80, (k - 1) as nat);
        } else if s2 >= ten80 {
            lemma_frac_ub(s1, one80, (k - 1) as nat);
        } else {
            assert(s1 * one80 <= s2 * one80) by (nonlinear_arith)
                requires
                    s1 <= s2,
            ;
            lemma_frac_mono(s1, one80, s2, one80, (k - 1) as nat);
        }
    }
}

/// The integer part is monotone in the rational `n / d`.
proof fn lemma_ip_mono(n1: nat, d1: nat, n2: nat, d2: nat)
    requires
        1 <= d1 <= n1,
        1 <= d2 <= n2,
        n1 * d2 <= n2 * d1,
    ensures
        ip_steps(n1, d1) <= ip_steps(n2, d2),
    decreases n1 - d1,
{
    if n1 < 10 * d1 {
    } else {
        assert(n2 >= 10 * d2) by (nonlinear_arith)
            requires
                n1 * d2 <= n2 * d1,
                n1 >= 10 * d1,
                d1 >= 1,
                d2 >= 1,
        ;
        assert(n1 * (10 * d2) <= n2 * (10 * d1)) by (nonlinear_arith)
            requires
                n1 * d2 <= n2 * d1,
        ;
        lemma_ip_mono(n1, 10 * d1, n2, 10 * d2);
    }
}

/// After taking out the integer part, the value sits in `[1, 10)`.
pub proof fn lemma_ip_brackets(n: nat, d: nat)
    requires
        1 <= d <= n,
    ensures
        d * pow10(ip_steps(n, d)) <= n,
        n < 10 * (d * pow10(ip_steps(n, d))),
    decreases n - d,
{
    if n < 10 * d {
        assert(d * pow10(0) == d) by (nonlinear_arith);
    } else {
        lemma_ip_brackets(n, 10 * d);
        let ip = ip_steps(n, 10 * d);
        assert((10 * d) * pow10(ip) == d * (10 * pow10(ip))) by (nonlinear_arith);
    }
}

/// `n < d * 10^e` caps the integer part under `e`.
pub proof fn lemma_ip_cap(n: nat, d: nat, e: nat)
    requires
        1 <= d <= n,
        n < d * pow10(e),
    ensures
        ip_steps(n, d) < e,
    decreases n - d,
{
    if n < 10 * d {
        if e == 0 {
            assert(d * pow10(0) == d) by (nonlinear_arith);
        }
    } else {
        if e == 0 {
            assert(d * pow10(0) == d) by (nonlinear_arith);
        }
        assert(n < (10 * d) * pow10((e - 1) as nat)) by (nonlinear_arith)
            requires
                n < d * pow10(e),
                pow10(e) == 10 * pow10((e - 1) as nat),
        ;
        assert(10 * d <= n);
        lemma_ip_cap(n, 10 * d, (e - 1) as nat);
    }
}

/// A 64-bit input has an integer part of at most nineteen decades.
pub proof fn lemma_ip_le_19(n: nat, d: nat)
    requires
        1 <= d <= n,
        n <= 0xffff_ffff_ffff_ffff,
    ensures
        ip_steps(n, d) <= 19,
{
    reveal_with_fuel(pow10, 21);
    assert(pow10(20) == 100_000_000_000_000_000_000);
    assert(n < d * pow10(20)) by (nonlinear_arith)
        requires
            d >= 1,
            n <= 0xffff_ffff_ffff_ffff,
            pow10(20) == 100_000_000_000_000_000_000,
    ;
    lemma_ip_cap(n, d, 20);
}

/// Monotonicity: a larger rational has at least as large a logarithm.
pub proof fn lemma_log10_mono(n1: nat, d1: nat, n2: nat, d2: nat)
    requires
        1 <= d1 <= n1,
        1 <= d2 <= n2,
        n1 * d2 <= n2 * d1,
    ensures
        spec_log10(n1, d1) <= spec_log10(n2, d2),
{
    lemma_ip_mono(n1, d1, n2, d2);
    let ip1 = ip_steps(n1, d1);
    let ip2 = ip_steps(n2, d2);
    let e1 = d1 * pow10(ip1);
    let e2 = d2 * pow10(ip2);
    lemma_ip_brackets(n1, d1);
    lemma_ip_brackets(n2, d2);
    lemma_pow10_pos(ip1);
    lemma_pow10_pos(ip2);
    assert(e1 >= 1) by (nonlinear_arith)
        requires
            d1 >= 1,
            pow10(ip1) >= 1,
            e1 == d1 * pow10(ip1),
    ;
    assert(e2 >= 1) by (nonlinear_arith)
        requires
            d2 >= 1,
            pow10(ip2) >= 1,
            e2 == d2 * pow10(ip2),
    ;
    if ip1 == ip2 {
        assert(n1 * e2 <= n2 * e1) by (nonlinear_arith)
            requires
                n1 * d2 <= n2 * d1,
                e1 == d1 * pow10(ip1),
                e2 == d2 * pow10(ip1),
                pow10(ip1) >= 1,
        ;
        lemma_frac_mono(n1, e1, n2, e2, 16);
    } else {
        lemma_frac_ub(n1, e1, 16);
        assert(bit_weight(16) == 65536) by {
            reveal_with_fuel(bit_weight, 17);
        }
        assert(ip1 * 65536 + 65536 <= ip2 * 65536) by (nonlinear_arith)
            requires
                ip1 < ip2,
        ;
    }
}

/// `SCALE * log10(n / d)`, rounded down: the integer part exactly, then
/// sixteen binary digits of the fraction, each digit rounded down after a
/// 40-bit renormalization.
pub fn log10_fixed(n: u64, d: u64) -> (r: u64)
    requires
        1 <= d <= n,
    ensures
        r == spec_log10(n as nat, d as nat),
        r < 20 * 65536,
{
    let mut dd: u128 = d as u128;
    let mut ip: u64 = 0;
    proof {
        assert((d as nat) * pow10(0) == d as nat) by (nonlinear_arith);
    }
    while (n as u128) >= 10 * dd
        invariant
            1 <= dd <= n as u128,
            dd as nat == d as nat * pow10(ip as nat),
            pow10(ip as nat) <= dd as nat,
            ip <= 19,
            ip_steps(n as nat, d as nat) == ip + ip_steps(n as nat, dd as nat),
        decreases n as int - dd as int,
    {
        proof {
            let ipn = ip as nat;
            assert((d as nat) * (10 * pow10(ipn)) == 10 * ((d as nat) * pow10(ipn)))
                by (nonlinear_arith);
            assert(pow10((ipn + 1) as nat) <= d as nat * pow10((ipn + 1) as nat))
                by (nonlinear_arith)
                requires
                    d >= 1,
                    pow10((ipn + 1) as nat) >= 0,
            ;
            if ip >= 19 {
                reveal_with_fuel(pow10, 21);
                assert(pow10(20) == 100_000_000_000_000_000_000);
                assert(false);
            }
        }
        dd = 10 * dd;
        ip = ip + 1;
    }
    let ghost b0: nat = dd as nat;
    let mut a: u128 = n as u128;
    let mut b: u128 = dd;
    let mut frac: u64 = 0;
    let mut w: u64 = 32768;
    let mut i: u64 = 0;
    proof {
        assert(bit_weight(15) == 32768 && bit_weight(16) == 65536) by {
            reveal_with_fuel(bit_weight, 17);
        }
    }
    while i < 16
        invariant
            i <= 16,
            1 <= b <= a,
            (a as nat) < 10 * (b as nat),
            i == 0 ==> a == n as u128 && b as nat == b0 && a < 0x1_0000_0000_0000_0000,
            i >= 1 ==> (b == 0x1_0000_0000_0000_0000_0000u128 || b
                == 0xa_0000_0000_0000_0000_0000u128),
            i < 16 ==> w as nat == bit_weight((15 - i) as nat),
            frac as nat + bit_weight((16 - i) as nat) <= 65536,
            frac as nat + frac_bits(a as nat, b as nat, (16 - i) as nat) == frac_bits(
                n as nat,
                b0,
                16,
            ),
        decreases 16 - i,
    {
        proof {
            assert(a < 0x64_0000_0000_0000_0000_0000) by (nonlinear_arith)
                requires
                    (a as nat) < 10 * (b as nat),
                    b <= 0xa_0000_0000_0000_0000_0000u128 || a < 0x1_0000_0000_0000_0000,
            ;
            assert((a as nat) * 0x100_0000_0000 < 0x6400_0000_0000_0000_0000_0000_0000_0000)
                by (nonlinear_arith)
                requires
                    (a as nat) < 0x64_0000_0000_0000_0000_0000,
            ;
        }
        let a1: u128 = (a * 0x100_0000_0000) / b;
        proof {
            assert((a as nat) * 0x100_0000_0000 < (b as nat) * (10 * 0x100_0000_0000))
                by (nonlinear_arith)
                requires
                    (a as nat) < 10 * (b as nat),
            ;
            lemma_multiply_divide_lt(
                (a as int) * 0x100_0000_0000,
                b as int,
                0xa00_0000_0000int,
            );
            assert(a1 as nat == renorm(a as nat, b as nat));
            lemma_div_is_ordered(b as int * 0x100_0000_0000, a as int * 0x100_0000_0000, b as int);
            lemma_div_by_multiple(0x100_0000_0000, b as int);
            assert((b as int) * 0x100_0000_0000 == 0x100_0000_0000 * (b as int)) by (nonlinear_arith);
            assert(a1 >= 0x100_0000_0000);
            assert((a1 as nat) * (a1 as nat) < 0xa00_0000_0000 * 0xa00_0000_0000) by (nonlinear_arith)
                requires
                    a1 < 0xa00_0000_0000,
            ;
            assert((a1 as nat) * (a1 as nat) >= 0x100_0000_0000 * 0x100_0000_0000) by (nonlinear_arith)
                requires
                    a1 >= 0x100_0000_0000,
            ;
        }
        let sq: u128 = a1 * a1;
        proof {
            assert(bit_weight((16 - i) as nat) == 2 * bit_weight((15 - i) as nat));
        }
        if sq >= 0xa_0000_0000_0000_0000_0000 {
            frac = frac + w;
            a = sq;
            b = 0xa_0000_0000_0000_0000_0000;
        } else {
            a = sq;
            b = 0x1_0000_0000_0000_0000_0000;
        }
        proof {
            if i < 15 {
                assert(bit_weight((15 - i) as nat) == 2 * bit_weight((14 - i) as nat));
            }
        }
        w = w / 2;
        i = i + 1;
    }
    proof {
        lemma_ip_brackets(n as nat, d as nat);
        lemma_frac_ub(n as nat, b0, 16);
        assert(bit_weight(16) == 65536) by {
            reveal_with_fuel(bit_weight, 17);
        }
    }
    ip * SCALE + frac
}

} // verus!
