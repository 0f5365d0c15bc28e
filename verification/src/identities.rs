//! Identities of scalar arithmetic: rounding is exact on what needs no
//! rounding, so one is neutral for products and zero for sums.

use vstd::prelude::*;
use vstd::arithmetic::div_mod::{
    lemma_div_multiples_vanish_quotient,
    lemma_fundamental_div_mod_converse,
    lemma_truncate_middle,
};
use vstd::arithmetic::power2::{
    lemma2_to64,
    lemma_pow2_adds,
    lemma_pow2_pos,
    lemma_pow2_strictly_increases,
    pow2,
};
use crate::scalar::{
    bit_length,
    finite_quotient,
    finite_sum,
    lemma_bit_length_bounds,
    pack_rounded,
    round_half_even,
    Scalar,
};

verus! {

/// A larger exponent gives no smaller power of two.
pub proof fn lemma_pow2_monotone(a: nat, b: nat)
    requires
        a <= b,
    ensures
        pow2(a) <= pow2(b),
{
    if a < b {
        lemma_pow2_strictly_increases(a, b);
    }
}

/// A number between two neighbouring powers of two has the digit count
/// that they name.
pub proof fn lemma_bit_length_is(m: nat, n: nat)
    requires
        n >= 1,
        pow2((n - 1) as nat) <= m < pow2(n),
    ensures
        bit_length(m) == n,
{
    lemma_pow2_pos((n - 1) as nat);
    lemma_bit_length_bounds(m);
    let p = bit_length(m);
    if p < n {
        lemma_pow2_monotone(p, (n - 1) as nat);
    } else if p > n {
        lemma_pow2_monotone(n, (p - 1) as nat);
    }
}

/// Scaling by a power of two adds its exponent to the digit count.
pub proof fn lemma_bit_length_scaled(m: nat, s: nat)
    requires
        m > 0,
    ensures
        bit_length(m * pow2(s)) == bit_length(m) + s,
{
    lemma_bit_length_bounds(m);
    let n = bit_length(m);
    lemma_pow2_adds((n - 1) as nat, s);
    lemma_pow2_adds(n, s);
    lemma_pow2_pos(s);
    let low = pow2((n - 1) as nat);
    let high = pow2(n);
    let unit = pow2(s);
    assert(low * unit <= m * unit < high * unit) by (nonlinear_arith)
        requires
            low <= m < high,
            unit > 0,
    ;
    lemma_bit_length_is(m * pow2(s), n + s);
}

/// A multiple of the unit rounds to itself.
pub proof fn lemma_round_exact(m: nat, k: nat)
    ensures
        round_half_even(m * pow2(k), k) == m,
{
    lemma_pow2_pos(k);
    lemma_fundamental_div_mod_converse((m * pow2(k)) as int, pow2(k) as int, m as int, 0);
}

/// Scaling a number and the unit alike does not change how it rounds.
pub proof fn lemma_round_scaled(m: nat, k: nat, s: nat)
    ensures
        round_half_even(m * pow2(s), k + s) == round_half_even(m, k),
{
    lemma_pow2_pos(k);
    lemma_pow2_pos(s);
    lemma_pow2_adds(s, k);
    let unit = pow2(k) as int;
    let scale = pow2(s) as int;
    assert(pow2(k + s) == scale * unit) by {
        assert(k + s == s + k);
    }
    lemma_div_multiples_vanish_quotient(scale, m as int, unit);
    lemma_truncate_middle(m as int, scale, unit);
    assert(m * pow2(s) == scale * m) by (nonlinear_arith)
        requires
            scale == pow2(s),
    ;
    let rest = (m as int) % unit;
    let kept = (m as int) / unit;
    assert((scale * m) / (scale * unit) == kept);
    assert((scale * m) % (scale * unit) == scale * rest);
    assert((2 * (scale * rest) > scale * unit) == (2 * rest > unit)) by (nonlinear_arith)
        requires
            scale > 0,
    ;
    assert((2 * (scale * rest) == scale * unit) == (2 * rest == unit)) by (nonlinear_arith)
        requires
            scale > 0,
    ;
}

/// Rounding sees only the value `m * 2^q`, not how it is split between
/// `m` and `q`.
pub proof fn lemma_pack_scaled(negative: bool, m: nat, q: int, s: nat)
    ensures
        pack_rounded(negative, m * pow2(s), q - s) == pack_rounded(negative, m, q),
{
    lemma_pow2_pos(s);
    if m == 0 {
        assert(m * pow2(s) == 0) by (nonlinear_arith)
            requires
                m == 0,
        ;
    } else {
        let wide = m * pow2(s);
        assert(wide > 0) by (nonlinear_arith)
            requires
                wide == m * pow2(s),
                m > 0,
                pow2(s) > 0,
        ;
        lemma_bit_length_scaled(m, s);
        let top = q + bit_length(m) - 1;
        if top <= 127 {
            let t = if top - 23 > -149 {
                top - 23
            } else {
                -149
            };
            if t >= q {
                let k = (t - q) as nat;
                lemma_round_scaled(m, k, s);
                assert(t - (q - s) == k + s);
            } else {
                let up = (q - t) as nat;
                if t >= q - s {
                    let k = (t - (q - s)) as nat;
                    lemma_pow2_adds(up, k);
                    assert(up + k == s);
                    assert(m * pow2(s) == (m * pow2(up)) * pow2(k)) by (nonlinear_arith)
                        requires
                            pow2(s) == pow2(up) * pow2(k),
                    ;
                    lemma_round_exact(m * pow2(up), k);
                } else {
                    let more = (q - s - t) as nat;
                    lemma_pow2_adds(s, more);
                    assert(s + more == up);
                    assert((m * pow2(s)) * pow2(more) == m * pow2(up)) by (nonlinear_arith)
                        requires
                            pow2(up) == pow2(s) * pow2(more),
                    ;
                }
            }
        }
    }
}

/// A number is its sign bit and its magnitude.
pub proof fn lemma_compose_own(x: Scalar)
    ensures
        Scalar::compose(x.negative(), x.magnitude()) == x,
{
}

/// Rounding a finite number's own significand at its own quantum gives the
/// number back.
pub proof fn lemma_pack_own(x: Scalar)
    requires
        x.finite(),
    ensures
        pack_rounded(x.negative(), x.significand(), x.quantum()) == x,
{
    lemma_compose_own(x);
    lemma2_to64();
    let m = x.significand();
    let e = x.exponent_field();
    let f = x.fraction_field();
    assert(x.magnitude() == e * 0x80_0000 + f);
    if m == 0 {
    } else if e == 0 {
        lemma_bit_length_bounds(m);
        crate::scalar::lemma_bit_length_at_most(m, 23);
        assert(pow2(0) == 1);
        assert(round_half_even(m, 0) == m);
    } else {
        lemma_bit_length_is(m, 24);
        assert(pow2(0) == 1);
        assert(round_half_even(m, 0) == m);
    }
}

/// One is neutral for products: it leaves every number but a NaN as it
/// is.
pub proof fn lemma_mul_one(x: Scalar)
    requires
        !x.nan(),
    ensures
        x.spec_mul(Scalar::spec_one()) == x,
        Scalar::spec_one().spec_mul(x) == x,
{
    let one = Scalar::spec_one();
    lemma2_to64();
    lemma_compose_own(x);
    assert(one.magnitude() == 0x3f80_0000);
    assert(one.exponent_field() == 127);
    assert(one.fraction_field() == 0);
    assert(one.significand() == pow2(23));
    assert(one.quantum() == -23);
    assert(!one.negative());
    if x.finite() {
        let m = x.significand();
        lemma_pack_scaled(x.negative(), m, x.quantum(), 23);
        lemma_pack_own(x);
        assert(pow2(23) * m == m * pow2(23)) by (nonlinear_arith);
    } else {
        assert(x.infinite());
    }
}

/// Zero is neutral for sums: it leaves every number as it is, but for a
/// NaN and for the negative zero, which it turns positive.
pub proof fn lemma_add_zero(x: Scalar)
    requires
        !x.nan(),
        x.bits != 0x8000_0000,
    ensures
        x.spec_add(Scalar::spec_zero()) == x,
        Scalar::spec_zero().spec_add(x) == x,
{
    let zero = Scalar::spec_zero();
    lemma2_to64();
    lemma_compose_own(x);
    assert(zero.magnitude() == 0);
    assert(zero.significand() == 0);
    assert(zero.quantum() == -149);
    assert(!zero.negative());
    assert(!zero.nan() && !zero.infinite());
    if x.infinite() {
    } else if x.magnitude() == 0 {
        assert(x.bits == 0);
    } else {
        assert(x.finite());
        let m = x.significand();
        assert(m > 0);
        let q = x.quantum();
        let s = (q + 149) as nat;
        {
            lemma_pack_scaled(x.negative(), m, q, s);
            lemma_pack_own(x);
            lemma_pow2_pos(s);
            let total = x.signed_significand() * pow2(s) + zero.signed_significand() * pow2(0);
            assert(zero.signed_significand() * pow2(0) == 0) by (nonlinear_arith)
                requires
                    zero.signed_significand() == 0,
            ;
            if x.negative() {
                assert(-total == m * pow2(s)) by (nonlinear_arith)
                    requires
                        total == (-(m as int)) * pow2(s),
                ;
                assert(total < 0) by (nonlinear_arith)
                    requires
                        -total == m * pow2(s),
                        m > 0,
                        pow2(s) > 0,
                ;
            } else {
                assert(total == m * pow2(s));
                assert(total > 0) by (nonlinear_arith)
                    requires
                        total == m * pow2(s),
                        m > 0,
                        pow2(s) > 0,
                ;
            }
            assert(finite_sum(x, zero) == x);
            assert(zero.signed_significand() * pow2(0) + x.signed_significand() * pow2(s) == total);
            assert(finite_sum(zero, x) == x);
        }
    }
}

/// A significand of 24 digits, scaled by `2^d` and moved by less than
/// `2^24`, rounds back to itself at its own quantum `q + d`.
pub proof fn lemma_pack_near(negative: bool, m: nat, d: nat, r: int, q: int)
    requires
        0x80_0000 <= m < 0x100_0000,
        d >= 26,
        -0x100_0000 < r < 0x100_0000,
        -148 <= q + d <= 104,
    ensures
        m * pow2(d) + r > 0,
        pack_rounded(negative, (m * pow2(d) + r) as nat, q) == Scalar::compose(
            negative,
            ((q + d + 149) * 0x80_0000 + m) as nat,
        ),
{
    lemma2_to64();
    lemma_pow2_monotone(26, d);
    lemma_pow2_adds(23, d);
    lemma_pow2_adds(24, d);
    lemma_pow2_adds(16, 10);
    assert(pow2(26) == 0x400_0000);
    let unit = pow2(d) as int;
    let wide = m * unit + r;
    assert(0x80_0000 * unit <= m * unit <= 0xff_ffff * unit) by (nonlinear_arith)
        requires
            0x80_0000 <= m <= 0xff_ffff,
            unit > 0,
    ;
    if r >= 0 {
        assert(pow2(23 + d) <= wide < pow2(24 + d));
        lemma_bit_length_is(wide as nat, 24 + d);
        lemma_fundamental_div_mod_converse(wide, unit, m as int, r);
        assert(round_half_even(wide as nat, d) == m);
        assert(q + d - q == d);
    } else if m > 0x80_0000 {
        assert(0x80_0001 * unit <= m * unit) by (nonlinear_arith)
            requires
                0x80_0001 <= m,
                unit > 0,
        ;
        assert(pow2(23 + d) <= wide < pow2(24 + d));
        lemma_bit_length_is(wide as nat, 24 + d);
        assert(wide == (m - 1) * unit + (unit + r)) by (nonlinear_arith)
            requires
                wide == m * unit + r,
        ;
        lemma_fundamental_div_mod_converse(wide, unit, m - 1, unit + r);
        assert(round_half_even(wide as nat, d) == m);
        assert(q + d - q == d);
    } else {
        let half = pow2((d - 1) as nat) as int;
        vstd::arithmetic::power2::lemma_pow2_unfold(d);
        lemma_pow2_monotone(25, (d - 1) as nat);
        lemma_pow2_adds(16, 9);
        assert(pow2(25) == 0x200_0000);
        lemma_pow2_adds(22, d);
        assert(unit == 2 * half);
        assert(pow2(22 + d) == 0x40_0000 * unit);
        assert(pow2(22 + d) <= wide < pow2(23 + d));
        lemma_bit_length_is(wide as nat, 23 + d);
        assert(wide == 0xff_ffff * half + (half + r)) by (nonlinear_arith)
            requires
                wide == 0x80_0000 * unit + r,
                unit == 2 * half,
        ;
        lemma_fundamental_div_mod_converse(wide, half, 0xff_ffff, half + r);
        assert(round_half_even(wide as nat, (d - 1) as nat) == 0x100_0000);
        assert(q + d - 1 - q == d - 1);
    }
}

/// Where the quanta of two finite numbers lie more than 40 apart, the
/// smaller number is far below the last digit of the larger one, and their
/// sum is the larger one.
pub proof fn lemma_far_apart(a: Scalar, b: Scalar)
    requires
        a.finite(),
        b.finite(),
        a.quantum() - b.quantum() > 40,
    ensures
        finite_sum(a, b) == a,
        finite_sum(b, a) == a,
{
    lemma2_to64();
    lemma_compose_own(a);
    let m = a.significand();
    let small = b.significand();
    let q = b.quantum();
    let d = (a.quantum() - q) as nat;
    let unit = pow2(d) as int;
    lemma_pow2_pos(d);
    assert(a.exponent_field() >= 2);
    assert(a.magnitude() == a.exponent_field() * 0x80_0000 + a.fraction_field());
    assert(a.magnitude() == (q + d + 149) * 0x80_0000 + m);
    let total = a.signed_significand() * pow2(d) + b.signed_significand() * pow2(0);
    assert(b.signed_significand() * pow2(0) == b.signed_significand()) by (nonlinear_arith)
        requires
            pow2(0) == 1,
    ;
    assert(total == b.signed_significand() * pow2(0) + a.signed_significand() * pow2(d));
    if a.negative() {
        let r = -b.signed_significand();
        lemma_pack_near(true, m, d, r, q);
        assert(-total == m * unit + r) by (nonlinear_arith)
            requires
                total == (-(m as int)) * unit - r,
        ;
    } else {
        let r = b.signed_significand();
        lemma_pack_near(false, m, d, r, q);
        assert(total == m * unit + r);
    }
}

/// A quotient that comes out even is rounded as it is: the digit that
/// records a remainder is zero and does not count.
pub proof fn lemma_exact_quotient(a: Scalar, b: Scalar)
    requires
        b.significand() > 0,
        (a.significand() * 0x1_0000_0000_0000_0000) % b.significand() == 0,
    ensures
        finite_quotient(a, b) == pack_rounded(
            a.negative() != b.negative(),
            (a.significand() * 0x1_0000_0000_0000_0000) / b.significand(),
            a.quantum() - b.quantum() - 64,
        ),
{
    lemma2_to64();
    let whole = (a.significand() * 0x1_0000_0000_0000_0000) / b.significand();
    assert(whole * pow2(1) == 2 * whole);
    lemma_pack_scaled(a.negative() != b.negative(), whole, a.quantum() - b.quantum() - 64, 1);
}

/// Dividing by one leaves every number but a NaN as it is.
pub proof fn lemma_div_one(x: Scalar)
    requires
        !x.nan(),
    ensures
        x.spec_div(Scalar::spec_one()) == x,
{
    let one = Scalar::spec_one();
    lemma2_to64();
    lemma_compose_own(x);
    assert(one.magnitude() == 0x3f80_0000);
    assert(one.exponent_field() == 127);
    assert(one.fraction_field() == 0);
    assert(one.significand() == 0x80_0000);
    assert(one.quantum() == -23);
    assert(!one.negative());
    assert(!one.nan() && !one.infinite());
    if x.finite() && x.magnitude() != 0 {
        let m = x.significand();
        let scaled = m * 0x1_0000_0000_0000_0000;
        lemma_pow2_adds(32, 9);
        assert(pow2(41) == 0x200_0000_0000);
        assert(scaled == (m * pow2(41)) * 0x80_0000) by (nonlinear_arith)
            requires
                scaled == m * 0x1_0000_0000_0000_0000,
                pow2(41) == 0x200_0000_0000,
        ;
        lemma_fundamental_div_mod_converse(scaled as int, 0x80_0000, (m * pow2(41)) as int, 0);
        lemma_exact_quotient(x, one);
        lemma_pack_scaled(x.negative(), m, x.quantum(), 41);
        lemma_pack_own(x);
    }
}

} // verus!
