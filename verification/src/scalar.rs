//! Single-precision binary floating-point numbers, held as bit patterns.
//!
//! A `Scalar` is the 32-bit interchange encoding of a binary floating-point
//! number: one sign bit, eight exponent bits, twenty-three fraction bits.
//! Every operation is computed on integers and rounds to nearest, ties to
//! even, so each result is a function of the operand bits alone.

use vstd::prelude::*;
use vstd::arithmetic::div_mod::{
    lemma_basic_div,
    lemma_multiply_divide_lt,
    lemma_small_mod,
};
use crate::identities::lemma_far_apart;
use vstd::arithmetic::power2::{
    lemma2_to64,
    lemma_pow2_adds,
    lemma_pow2_pos,
    lemma_pow2_strictly_increases,
    lemma_pow2_unfold,
    pow2,
};

verus! {

/// The payload of positive infinity: all exponent bits set, fraction zero.
pub const INFINITY_BITS: u32 = 0x7f80_0000;

/// The one not-a-number that arithmetic produces.
pub const NAN_BITS: u32 = 0x7fc0_0000;

/// The encoding of 1.
pub const ONE_BITS: u32 = 0x3f80_0000;

/// Significands handed to rounding stay below this bound, two to the 100th.
pub const WIDE_LIMIT: u128 = 0x10_0000_0000_0000_0000_0000_0000;

/// Where the quanta of two addends lie further apart than this, the sum is
/// the addend of the larger quantum, and the other one is not aligned.
pub const ALIGN_LIMIT: i32 = 40;

/// A binary32 number, identified with its encoding.
#[derive(Clone, Copy, Debug, PartialEq, Eq, Structural)]
pub struct Scalar {
    pub bits: u32,
}

/// Number of binary digits of `m`: 0 for 0, otherwise `floor(log2(m)) + 1`.
pub open spec fn bit_length(m: nat) -> nat
    decreases m,
{
    if m == 0 {
        0
    } else {
        1 + bit_length(m / 2)
    }
}

/// The integer nearest to `m / 2^k`; a tie goes to the even neighbour.
pub open spec fn round_half_even(m: nat, k: nat) -> nat {
    let unit = pow2(k);
    let kept = m / unit;
    let rest = m % unit;
    if 2 * rest > unit || (2 * rest == unit && kept % 2 == 1) {
        kept + 1
    } else {
        kept
    }
}

/// The number nearest to `m * 2^q` with the given sign.
///
/// The result's quantum `t` is the exponent of the last kept digit: 23 below
/// the leading digit of `m * 2^q`, but never below -149, where numbers turn
/// subnormal. A leading digit above exponent 127 gives infinity. Adding the
/// rounded significand to the exponent field carries a significand that
/// rounded up to the next power of two into the next exponent, and from the
/// largest finite exponent into infinity.
pub open spec fn pack_rounded(negative: bool, m: nat, q: int) -> Scalar {
    if m == 0 {
        Scalar::compose(negative, 0)
    } else {
        let top = q + bit_length(m) - 1;
        if top > 127 {
            Scalar::compose(negative, INFINITY_BITS as nat)
        } else {
            let t = if top - 23 > -149 {
                top - 23
            } else {
                -149
            };
            let kept = if t >= q {
                round_half_even(m, (t - q) as nat)
            } else {
                m * pow2((q - t) as nat)
            };
            Scalar::compose(negative, ((t + 149) * 0x80_0000 + kept) as nat)
        }
    }
}

/// The sum of two finite numbers that are not both zero.
///
/// Both are written over the smaller quantum and added as integers; the
/// exact sum is rounded once. An exact sum of zero is the positive zero.
pub open spec fn finite_sum(a: Scalar, b: Scalar) -> Scalar {
    let q = if a.quantum() >= b.quantum() {
        b.quantum()
    } else {
        a.quantum()
    };
    let total = a.signed_significand() * pow2((a.quantum() - q) as nat) + b.signed_significand()
        * pow2((b.quantum() - q) as nat);
    if total == 0 {
        Scalar::compose(false, 0)
    } else if total < 0 {
        pack_rounded(true, (-total) as nat, q)
    } else {
        pack_rounded(false, total as nat, q)
    }
}

/// The quotient of two finite numbers, the divisor not zero.
///
/// The dividend's significand is scaled by `2^64` and divided as an integer;
/// one more digit below the quotient records whether anything was left over,
/// so that rounding sees on which side of a tie the true quotient lies.
pub open spec fn finite_quotient(a: Scalar, b: Scalar) -> Scalar {
    let scaled = a.significand() * 0x1_0000_0000_0000_0000;
    let whole = scaled / b.significand();
    let left_over: nat = if scaled % b.significand() != 0 {
        1
    } else {
        0
    };
    pack_rounded(
        a.negative() != b.negative(),
        2 * whole + left_over,
        a.quantum() - b.quantum() - 65,
    )
}

impl Scalar {
    /// The sign bit.
    pub open spec fn negative(self) -> bool {
        self.bits >= 0x8000_0000
    }

    /// The encoding without its sign bit.
    pub open spec fn magnitude(self) -> nat {
        (self.bits % 0x8000_0000) as nat
    }

    /// The eight exponent bits as a number.
    pub open spec fn exponent_field(self) -> nat {
        self.magnitude() / 0x80_0000
    }

    /// The twenty-three fraction bits as a number.
    pub open spec fn fraction_field(self) -> nat {
        self.magnitude() % 0x80_0000
    }

    /// Not a number: all exponent bits set and a fraction that is not zero.
    pub open spec fn nan(self) -> bool {
        self.exponent_field() == 255 && self.fraction_field() != 0
    }

    /// An infinity of either sign.
    pub open spec fn infinite(self) -> bool {
        self.magnitude() == INFINITY_BITS
    }

    /// Neither an infinity nor a NaN.
    pub open spec fn finite(self) -> bool {
        self.exponent_field() < 255
    }

    /// A finite number is `significand * 2^quantum`, negated under the sign
    /// bit. Normal numbers carry an implicit leading digit.
    pub open spec fn significand(self) -> nat {
        if self.exponent_field() == 0 {
            self.fraction_field()
        } else {
            self.fraction_field() + 0x80_0000
        }
    }

    /// The exponent of the last digit of the significand.
    pub open spec fn quantum(self) -> int {
        if self.exponent_field() == 0 {
            -149
        } else {
            self.exponent_field() - 150
        }
    }

    /// The significand, negated under the sign bit.
    pub open spec fn signed_significand(self) -> int {
        if self.negative() {
            -(self.significand() as int)
        } else {
            self.significand() as int
        }
    }

    /// Strictly greater than zero: no zero of either sign, and no NaN.
    pub open spec fn above_zero(self) -> bool {
        !self.negative() && !self.nan() && self.magnitude() != 0
    }

    /// Strictly less than zero: no zero of either sign, and no NaN.
    pub open spec fn below_zero(self) -> bool {
        self.negative() && !self.nan() && self.magnitude() != 0
    }

    /// The number with the given sign bit and the given remaining bits.
    pub open spec fn compose(negative: bool, magnitude: nat) -> Scalar {
        Scalar {
            bits: if negative {
                (magnitude + 0x8000_0000) as u32
            } else {
                magnitude as u32
            },
        }
    }

    /// The positive zero.
    pub open spec fn spec_zero() -> Scalar {
        Scalar { bits: 0 }
    }

    /// The number one.
    pub open spec fn spec_one() -> Scalar {
        Scalar { bits: ONE_BITS }
    }

    /// The NaN that every operation without a result gives.
    pub open spec fn spec_nan() -> Scalar {
        Scalar { bits: NAN_BITS }
    }

    /// The number nearest to the integer `k`.
    pub open spec fn spec_from_i32(k: i32) -> Scalar {
        if k < 0 {
            pack_rounded(true, (-k) as nat, 0)
        } else {
            pack_rounded(false, k as nat, 0)
        }
    }

    /// The number with the other sign bit.
    pub open spec fn spec_neg(self) -> Scalar {
        Scalar::compose(!self.negative(), self.magnitude())
    }

    /// NaN absorbs; infinities of opposite sign have no sum; two zeros keep a
    /// shared sign and are otherwise positive; an exact sum of zero is
    /// positive.
    pub open spec fn spec_add(self, rhs: Scalar) -> Scalar {
        if self.nan() || rhs.nan() {
            Scalar::spec_nan()
        } else if self.infinite() {
            if rhs.infinite() && self.negative() != rhs.negative() {
                Scalar::spec_nan()
            } else {
                self
            }
        } else if rhs.infinite() {
            rhs
        } else if self.magnitude() == 0 && rhs.magnitude() == 0 {
            Scalar::compose(self.negative() && rhs.negative(), 0)
        } else {
            finite_sum(self, rhs)
        }
    }

    /// The difference: the sum with the negated subtrahend.
    pub open spec fn spec_sub(self, rhs: Scalar) -> Scalar {
        self.spec_add(rhs.spec_neg())
    }

    /// NaN absorbs; infinity times zero has no product; the sign is the
    /// exclusive or of the signs; the exact product is rounded once.
    pub open spec fn spec_mul(self, rhs: Scalar) -> Scalar {
        let negative = self.negative() != rhs.negative();
        if self.nan() || rhs.nan() {
            Scalar::spec_nan()
        } else if self.infinite() || rhs.infinite() {
            if self.magnitude() == 0 || rhs.magnitude() == 0 {
                Scalar::spec_nan()
            } else {
                Scalar::compose(negative, INFINITY_BITS as nat)
            }
        } else {
            pack_rounded(negative, self.significand() * rhs.significand(), self.quantum() + rhs.quantum())
        }
    }

    /// NaN absorbs; zero by zero and infinity by infinity have no quotient;
    /// a nonzero number by zero is infinite; the sign is the exclusive or of
    /// the signs.
    pub open spec fn spec_div(self, rhs: Scalar) -> Scalar {
        let negative = self.negative() != rhs.negative();
        if self.nan() || rhs.nan() {
            Scalar::spec_nan()
        } else if self.infinite() {
            if rhs.infinite() {
                Scalar::spec_nan()
            } else {
                Scalar::compose(negative, INFINITY_BITS as nat)
            }
        } else if rhs.infinite() {
            Scalar::compose(negative, 0)
        } else if rhs.magnitude() == 0 {
            if self.magnitude() == 0 {
                Scalar::spec_nan()
            } else {
                Scalar::compose(negative, INFINITY_BITS as nat)
            }
        } else if self.magnitude() == 0 {
            Scalar::compose(negative, 0)
        } else {
            finite_quotient(self, rhs)
        }
    }

    /// The number that `bits` encodes.
    pub fn from_bits(bits: u32) -> (r: Scalar)
        ensures
            r.bits == bits,
    {
        Scalar { bits }
    }

    /// The encoding of the number.
    pub fn to_bits(self) -> (bits: u32)
        ensures
            bits == self.bits,
    {
        self.bits
    }

    /// The positive zero.
    pub fn zero() -> (r: Scalar)
        ensures
            r == Scalar::spec_zero(),
    {
        Scalar { bits: 0 }
    }

    /// The number one.
    pub fn one() -> (r: Scalar)
        ensures
            r == Scalar::spec_one(),
    {
        Scalar { bits: ONE_BITS }
    }

    /// The integer `k`, rounded where it has more than 24 digits.
    pub fn from_i32(k: i32) -> (r: Scalar)
        ensures
            r == Scalar::spec_from_i32(k),
    {
        proof {
            lemma_wide_limit();
        }
        if k < 0 {
            let m: u128 = (-(k as i64)) as u128;
            round_pack(true, m, 0)
        } else {
            round_pack(false, k as u128, 0)
        }
    }

    /// Whether this is a NaN.
    pub fn is_nan(self) -> (b: bool)
        ensures
            b == self.nan(),
    {
        self.exponent_bits() == 255 && self.fraction_bits() != 0
    }

    /// Whether the number is strictly above zero.
    pub fn gt_zero(self) -> (b: bool)
        ensures
            b == self.above_zero(),
    {
        !self.sign_bit() && !self.is_nan() && self.magnitude_bits() != 0
    }

    /// Whether the number is strictly below zero.
    pub fn lt_zero(self) -> (b: bool)
        ensures
            b == self.below_zero(),
    {
        self.sign_bit() && !self.is_nan() && self.magnitude_bits() != 0
    }

    /// The negated number.
    pub fn neg(self) -> (r: Scalar)
        ensures
            r == self.spec_neg(),
    {
        with_sign(!self.sign_bit(), self.magnitude_bits())
    }

    /// The sum, rounded to nearest, ties to even.
    pub fn add(self, rhs: Scalar) -> (r: Scalar)
        ensures
            r == self.spec_add(rhs),
    {
        if self.is_nan() || rhs.is_nan() {
            Scalar { bits: NAN_BITS }
        } else if self.magnitude_bits() == INFINITY_BITS {
            if rhs.magnitude_bits() == INFINITY_BITS && self.sign_bit() != rhs.sign_bit() {
                Scalar { bits: NAN_BITS }
            } else {
                self
            }
        } else if rhs.magnitude_bits() == INFINITY_BITS {
            rhs
        } else if self.magnitude_bits() == 0 && rhs.magnitude_bits() == 0 {
            with_sign(self.sign_bit() && rhs.sign_bit(), 0)
        } else {
            add_finite(self, rhs)
        }
    }

    /// The difference, rounded to nearest, ties to even.
    pub fn sub(self, rhs: Scalar) -> (r: Scalar)
        ensures
            r == self.spec_sub(rhs),
    {
        self.add(rhs.neg())
    }

    /// The product, rounded to nearest, ties to even.
    pub fn mul(self, rhs: Scalar) -> (r: Scalar)
        ensures
            r == self.spec_mul(rhs),
    {
        let negative = self.sign_bit() != rhs.sign_bit();
        if self.is_nan() || rhs.is_nan() {
            Scalar { bits: NAN_BITS }
        } else if self.magnitude_bits() == INFINITY_BITS || rhs.magnitude_bits() == INFINITY_BITS {
            if self.magnitude_bits() == 0 || rhs.magnitude_bits() == 0 {
                Scalar { bits: NAN_BITS }
            } else {
                with_sign(negative, INFINITY_BITS)
            }
        } else {
            let ma: u128 = self.significand_bits() as u128;
            let mb: u128 = rhs.significand_bits() as u128;
            assert(ma * mb < 0x1_0000_0000_0000) by (nonlinear_arith)
                requires
                    ma < 0x100_0000,
                    mb < 0x100_0000,
            ;
            round_pack(negative, ma * mb, self.quantum_of() + rhs.quantum_of())
        }
    }

    /// The quotient, rounded to nearest, ties to even; a zero divisor gives an
    /// infinity or a NaN.
    pub fn div(self, rhs: Scalar) -> (r: Scalar)
        ensures
            r == self.spec_div(rhs),
    {
        let negative = self.sign_bit() != rhs.sign_bit();
        if self.is_nan() || rhs.is_nan() {
            Scalar { bits: NAN_BITS }
        } else if self.magnitude_bits() == INFINITY_BITS {
            if rhs.magnitude_bits() == INFINITY_BITS {
                Scalar { bits: NAN_BITS }
            } else {
                with_sign(negative, INFINITY_BITS)
            }
        } else if rhs.magnitude_bits() == INFINITY_BITS {
            with_sign(negative, 0)
        } else if rhs.magnitude_bits() == 0 {
            if self.magnitude_bits() == 0 {
                Scalar { bits: NAN_BITS }
            } else {
                with_sign(negative, INFINITY_BITS)
            }
        } else if self.magnitude_bits() == 0 {
            with_sign(negative, 0)
        } else {
            let ma: u128 = self.significand_bits() as u128;
            let mb: u128 = rhs.significand_bits() as u128;
            assert(ma * 0x1_0000_0000_0000_0000 < 0x100_0000_0000_0000_0000_0000) by (nonlinear_arith)
                requires
                    ma < 0x100_0000,
            ;
            let scaled: u128 = ma * 0x1_0000_0000_0000_0000;
            let whole: u128 = scaled / mb;
            let left_over: u128 = if scaled % mb != 0 {
                1
            } else {
                0
            };
            assert(whole <= scaled) by (nonlinear_arith)
                requires
                    whole == scaled / mb,
                    mb > 0,
                    scaled >= 0,
            ;
            round_pack(negative, 2 * whole + left_over, self.quantum_of() - rhs.quantum_of() - 65)
        }
    }

    fn sign_bit(self) -> (s: bool)
        ensures
            s == self.negative(),
    {
        self.bits >= 0x8000_0000
    }

    fn magnitude_bits(self) -> (m: u32)
        ensures
            m == self.magnitude(),
            m < 0x8000_0000,
    {
        self.bits % 0x8000_0000
    }

    fn exponent_bits(self) -> (e: u32)
        ensures
            e == self.exponent_field(),
            e <= 255,
    {
        self.magnitude_bits() / 0x80_0000
    }

    fn fraction_bits(self) -> (f: u32)
        ensures
            f == self.fraction_field(),
            f < 0x80_0000,
    {
        self.magnitude_bits() % 0x80_0000
    }

    fn significand_bits(self) -> (m: u32)
        ensures
            m == self.significand(),
            m < 0x100_0000,
            self.magnitude() != 0 && self.finite() ==> m > 0,
    {
        if self.exponent_bits() == 0 {
            self.fraction_bits()
        } else {
            self.fraction_bits() + 0x80_0000
        }
    }

    fn quantum_of(self) -> (q: i32)
        ensures
            q == self.quantum(),
            -149 <= q <= 105,
            self.finite() ==> q <= 104,
    {
        let e = self.exponent_bits();
        if e == 0 {
            -149
        } else {
            e as i32 - 150
        }
    }
}

/// `m < 2^n` has at most `n` digits, and a nonzero `m` lies between the two
/// powers of two that its digit count names.
pub proof fn lemma_bit_length_bounds(m: nat)
    ensures
        m > 0 ==> pow2((bit_length(m) - 1) as nat) <= m < pow2(bit_length(m)),
        m > 0 ==> bit_length(m) >= 1,
    decreases m,
{
    if m > 0 {
        lemma_bit_length_bounds(m / 2);
        if m / 2 == 0 {
            assert(bit_length(m / 2) == 0);
            assert(bit_length(m) == 1);
            lemma2_to64();
        } else {
            let h = bit_length(m / 2);
            assert(bit_length(m) == h + 1);
            lemma_pow2_unfold(h);
            lemma_pow2_unfold(h + 1);
        }
    }
}

/// A number below `2^n` has at most `n` digits.
pub proof fn lemma_bit_length_at_most(m: nat, n: nat)
    requires
        m < pow2(n),
    ensures
        bit_length(m) <= n,
{
    if m > 0 {
        lemma_bit_length_bounds(m);
        let p = bit_length(m);
        if p > n {
            if p - 1 > n {
                lemma_pow2_strictly_increases(n, (p - 1) as nat);
            }
        }
    }
}

proof fn lemma_wide_limit()
    ensures
        pow2(100) == WIDE_LIMIT,
        pow2(24) == 0x100_0000,
        pow2(0) == 1,
{
    lemma2_to64();
    lemma_pow2_adds(64, 32);
    lemma_pow2_adds(96, 4);
    assert(pow2(96) == 0x1_0000_0000_0000_0000 * 0x1_0000_0000);
}

fn with_sign(negative: bool, magnitude: u32) -> (r: Scalar)
    requires
        magnitude < 0x8000_0000,
    ensures
        r == Scalar::compose(negative, magnitude as nat),
{
    if negative {
        Scalar { bits: magnitude + 0x8000_0000 }
    } else {
        Scalar { bits: magnitude }
    }
}

fn power_of_two(k: u32) -> (r: u128)
    requires
        k <= 100,
    ensures
        r == pow2(k as nat),
{
    let mut r: u128 = 1;
    let mut i: u32 = 0;
    proof {
        lemma_wide_limit();
    }
    while i < k
        invariant
            i <= k <= 100,
            r == pow2(i as nat),
            pow2(100) == WIDE_LIMIT,
        decreases k - i,
    {
        proof {
            lemma_pow2_unfold((i + 1) as nat);
            if i + 1 < 100 {
                lemma_pow2_strictly_increases((i + 1) as nat, 100);
            }
        }
        r = r * 2;
        i = i + 1;
    }
    r
}

fn count_digits(m: u128) -> (p: u32)
    requires
        m < WIDE_LIMIT,
    ensures
        p == bit_length(m as nat),
        p <= 100,
{
    proof {
        lemma_wide_limit();
        lemma_bit_length_at_most(m as nat, 100);
    }
    let mut p: u32 = 0;
    let mut x: u128 = m;
    while x > 0
        invariant
            p + bit_length(x as nat) == bit_length(m as nat),
            bit_length(m as nat) <= 100,
        decreases x,
    {
        x = x / 2;
        p = p + 1;
    }
    p
}

/// Rounds `m * 2^q` to the nearest number of the given sign.
fn round_pack(negative: bool, m: u128, q: i32) -> (r: Scalar)
    requires
        m < WIDE_LIMIT,
        -400 <= q <= 400,
    ensures
        r == pack_rounded(negative, m as nat, q as int),
{
    if m == 0 {
        return with_sign(negative, 0);
    }
    let p = count_digits(m);
    proof {
        lemma_bit_length_bounds(m as nat);
        lemma_wide_limit();
    }
    let top: i32 = q + p as i32 - 1;
    if top > 127 {
        return with_sign(negative, INFINITY_BITS);
    }
    let t: i32 = if top - 23 > -149 {
        top - 23
    } else {
        -149
    };
    let kept: u128;
    if t >= q {
        let k: u32 = (t - q) as u32;
        if k > p {
            proof {
                lemma_pow2_unfold(k as nat);
                if p < k - 1 {
                    lemma_pow2_strictly_increases(p as nat, (k - 1) as nat);
                }
                lemma_basic_div(m as int, pow2(k as nat) as int);
                lemma_small_mod(m as nat, pow2(k as nat));
            }
            kept = 0;
        } else {
            let unit = power_of_two(k);
            proof {
                lemma_pow2_pos(k as nat);
                lemma_pow2_adds(k as nat, (p - k) as nat);
                lemma_multiply_divide_lt(m as int, unit as int, pow2((p - k) as nat) as int);
                if p - k < 24 {
                    lemma_pow2_strictly_increases((p - k) as nat, 24);
                }
                if k < 100 {
                    lemma_pow2_strictly_increases(k as nat, 100);
                }
            }
            let whole: u128 = m / unit;
            let rest: u128 = m % unit;
            if 2 * rest > unit || (2 * rest == unit && whole % 2 == 1) {
                kept = whole + 1;
            } else {
                kept = whole;
            }
        }
    } else {
        let s: u32 = (q - t) as u32;
        let unit = power_of_two(s);
        proof {
            lemma_pow2_pos(s as nat);
            lemma_pow2_adds(p as nat, s as nat);
            if p + s < 24 {
                lemma_pow2_strictly_increases((p + s) as nat, 24);
            }
            assert(m * unit < pow2(p as nat) * unit) by (nonlinear_arith)
                requires
                    m < pow2(p as nat),
                    unit > 0,
            ;
        }
        kept = m * unit;
    }
    assert(kept <= 0x100_0000);
    let field: u32 = (t + 149) as u32;
    with_sign(negative, field * 0x80_0000 + kept as u32)
}

/// Adds two finite numbers that are not both zero.
fn add_finite(a: Scalar, b: Scalar) -> (r: Scalar)
    requires
        a.finite(),
        b.finite(),
    ensures
        r == finite_sum(a, b),
{
    let qa = a.quantum_of();
    let qb = b.quantum_of();
    let d: i32 = qa - qb;
    if d > ALIGN_LIMIT {
        proof {
            lemma_far_apart(a, b);
        }
        return a;
    }
    if d < -ALIGN_LIMIT {
        proof {
            lemma_far_apart(b, a);
        }
        return b;
    }
    let ma: i128 = if a.sign_bit() {
        -(a.significand_bits() as i128)
    } else {
        a.significand_bits() as i128
    };
    let mb: i128 = if b.sign_bit() {
        -(b.significand_bits() as i128)
    } else {
        b.significand_bits() as i128
    };
    proof {
        lemma_wide_limit();
    }
    let q: i32;
    let total: i128;
    if d >= 0 {
        let unit = power_of_two(d as u32);
        proof {
            lemma_pow2_adds(d as nat, (40 - d) as nat);
            lemma_pow2_pos((40 - d) as nat);
            lemma_pow2_adds(32, 8);
            lemma2_to64();
            assert(unit <= 0x100_0000_0000) by (nonlinear_arith)
                requires
                    unit * pow2((40 - d) as nat) == 0x100_0000_0000,
                    pow2((40 - d) as nat) > 0,
                    unit >= 0,
            ;
            assert(-0x1_0000_0000_0000_0000 < ma * (unit as i128) < 0x1_0000_0000_0000_0000)
                by (nonlinear_arith)
                requires
                    -0x100_0000 < ma < 0x100_0000,
                    0 <= unit as i128 <= 0x100_0000_0000,
            ;
        }
        assert(b.signed_significand() * pow2(0) == b.signed_significand()) by (nonlinear_arith)
            requires
                pow2(0) == 1,
        ;
        q = qb;
        total = ma * (unit as i128) + mb;
    } else {
        let unit = power_of_two((-d) as u32);
        proof {
            lemma_pow2_adds((-d) as nat, (40 + d) as nat);
            lemma_pow2_pos((40 + d) as nat);
            lemma_pow2_adds(32, 8);
            lemma2_to64();
            assert(unit <= 0x100_0000_0000) by (nonlinear_arith)
                requires
                    unit * pow2((40 + d) as nat) == 0x100_0000_0000,
                    pow2((40 + d) as nat) > 0,
                    unit >= 0,
            ;
            assert(-0x1_0000_0000_0000_0000 < mb * (unit as i128) < 0x1_0000_0000_0000_0000)
                by (nonlinear_arith)
                requires
                    -0x100_0000 < mb < 0x100_0000,
                    0 <= unit as i128 <= 0x100_0000_0000,
            ;
        }
        assert(a.signed_significand() * pow2(0) == a.signed_significand()) by (nonlinear_arith)
            requires
                pow2(0) == 1,
        ;
        q = qa;
        total = ma + mb * (unit as i128);
    }
    if total == 0 {
        with_sign(false, 0)
    } else if total < 0 {
        round_pack(true, (-total) as u128, q)
    } else {
        round_pack(false, total as u128, q)
    }
}

} // verus!
