//! Fractions of a screen's width or height.
//!
//! A layout gives the share of the screen that a docked window takes as a
//! single-precision binary floating-point number. The library holds that
//! number as its 32-bit pattern and works out the docked extent with integers
//! alone, to the pixel as a single-precision multiplication would: the extent
//! is rounded to 24 significant bits, multiplied with the fraction, the product
//! is rounded to 24 significant bits (ties to even), truncated toward zero and
//! held within the 32-bit range.

use vstd::arithmetic::div_mod::*;
use vstd::arithmetic::mul::*;
use vstd::arithmetic::power2::*;
use vstd::prelude::*;

verus! {

/// The smallest number that does not fit in a significand of 24 bits.
pub const SIGNIFICAND_LIMIT: u64 = 0x100_0000;

/// The value of the implicit leading bit of a normal number's significand.
pub const HIDDEN_BIT: u32 = 0x80_0000;

/// The smallest magnitude that lies beyond the positive 32-bit range.
pub const MAGNITUDE_LIMIT: u64 = 0x8000_0000;

/// `n / d` rounded to the nearest integer; halfway between two integers, the even one.
pub open spec fn round_half_even(n: nat, d: nat) -> nat
    recommends
        d > 0,
{
    let q = n / d;
    let r = n % d;
    if 2 * r < d {
        q
    } else if 2 * r > d {
        q + 1
    } else if q % 2 == 0 {
        q
    } else {
        q + 1
    }
}

/// How many of its low bits `n` must give up to fit in 24 significant bits.
pub open spec fn excess_bits(n: nat) -> nat
    decreases n,
{
    if n < SIGNIFICAND_LIMIT {
        0
    } else {
        1 + excess_bits(n / 2)
    }
}

/// `n` rounded to 24 significant bits, ties to even: the nearest multiple of
/// two to the power of `excess_bits(n)`.
pub open spec fn round_significand(n: nat) -> nat {
    let unit = pow2(excess_bits(n));
    round_half_even(n, unit) * unit
}

/// The whole part of `x` times two to the power of `e`.
pub open spec fn floor_scaled(x: nat, e: int) -> nat {
    if e >= 0 {
        x * pow2(e as nat)
    } else {
        x / pow2((-e) as nat)
    }
}

/// The signed value of a magnitude, held within the 32-bit range.
pub open spec fn saturate(negative: bool, magnitude: nat) -> int {
    if negative {
        if magnitude >= MAGNITUDE_LIMIT {
            i32::MIN as int
        } else {
            -(magnitude as int)
        }
    } else {
        if magnitude >= MAGNITUDE_LIMIT {
            i32::MAX as int
        } else {
            magnitude as int
        }
    }
}

/// The magnitude of an integer.
pub open spec fn magnitude(v: int) -> nat {
    if v < 0 {
        (-v) as nat
    } else {
        v as nat
    }
}

/// A share of a screen's extent, as the bit pattern of a single-precision number:
/// one sign bit, eight exponent bits, 23 fraction bits.
#[derive(Debug, Clone, Copy, PartialEq, Eq, Structural)]
pub struct Fraction {
    pub bits: u32,
}

impl Fraction {
    /// The sign bit is set.
    pub open spec fn negative(self) -> bool {
        self.bits >= 0x8000_0000
    }

    /// The eight exponent bits.
    pub open spec fn exponent_field(self) -> nat {
        ((self.bits / HIDDEN_BIT) % 0x100) as nat
    }

    /// The 23 fraction bits.
    pub open spec fn fraction_field(self) -> nat {
        (self.bits % HIDDEN_BIT) as nat
    }

    /// The pattern is not a number.
    pub open spec fn is_nan(self) -> bool {
        self.exponent_field() == 255 && self.fraction_field() != 0
    }

    /// The pattern is an infinity.
    pub open spec fn is_infinite(self) -> bool {
        self.exponent_field() == 255 && self.fraction_field() == 0
    }

    /// The significand of a finite pattern: its magnitude is
    /// `significand() * 2^exponent()`.
    pub open spec fn significand(self) -> nat {
        if self.exponent_field() == 0 {
            self.fraction_field()
        } else {
            HIDDEN_BIT as nat + self.fraction_field()
        }
    }

    /// The power of two that scales the significand of a finite pattern.
    pub open spec fn exponent(self) -> int {
        if self.exponent_field() == 0 {
            -149
        } else {
            self.exponent_field() - 150
        }
    }

    /// The magnitude of `extent` times a finite fraction, rounded as the
    /// single-precision product is, without its part below one.
    pub open spec fn scaled_magnitude(self, extent: int) -> nat {
        floor_scaled(
            round_significand(round_significand(magnitude(extent)) * self.significand()),
            self.exponent(),
        )
    }

    /// The pixels that this share of `extent` pixels comes to.
    ///
    /// Not-a-number gives 0, and so does zero times infinity. Anything beyond
    /// the 32-bit range gives the nearest end of the range.
    pub open spec fn spec_scale(self, extent: int) -> int {
        let sign = (extent < 0) != self.negative();
        if self.is_nan() {
            0
        } else if self.is_infinite() {
            if extent == 0 {
                0
            } else {
                saturate(sign, MAGNITUDE_LIMIT as nat)
            }
        } else {
            saturate(sign, self.scaled_magnitude(extent))
        }
    }

    /// The fraction with the given single-precision bit pattern.
    pub fn from_bits(bits: u32) -> (f: Fraction)
        ensures
            f.bits == bits,
    {
        Fraction { bits }
    }

    /// The single-precision bit pattern of the fraction.
    pub fn to_bits(&self) -> (bits: u32)
        ensures
            bits == self.bits,
    {
        self.bits
    }

    /// The pixels that this share of `extent` pixels comes to.
    pub fn scale(&self, extent: i32) -> (pixels: i32)
        ensures
            pixels == self.spec_scale(extent as int),
    {
        let sign: bool = (extent < 0) != (self.bits >= 0x8000_0000);
        let exponent_field: u32 = (self.bits / HIDDEN_BIT) % 0x100;
        let fraction_field: u32 = self.bits % HIDDEN_BIT;
        if exponent_field == 255 {
            if fraction_field != 0 || extent == 0 {
                return 0;
            }
            return saturated(sign, MAGNITUDE_LIMIT);
        }
        let span: u64 = if extent < 0 {
            (-(extent as i64)) as u64
        } else {
            extent as u64
        };
        let rounded_span: u64 = rounded_to_significand(span);
        proof {
            lemma2_to64();
            lemma_round_significand_bound(span as nat, 31);
        }
        let significand: u64 = if exponent_field == 0 {
            fraction_field as u64
        } else {
            HIDDEN_BIT as u64 + fraction_field as u64
        };
        assert(rounded_span * significand < 0x100_0000_0000_0000) by (nonlinear_arith)
            requires
                rounded_span <= 0x8000_0000,
                significand < 0x100_0000,
        ;
        let product: u64 = rounded_to_significand(rounded_span * significand);
        let capped: u64 = if exponent_field >= 150 {
            scaled_up(product, exponent_field - 150)
        } else if exponent_field == 0 {
            scaled_down(product, 149)
        } else {
            scaled_down(product, 150 - exponent_field)
        };
        saturated(sign, capped)
    }
}

/// Two to the power of `k`.
fn power_of_two(k: u32) -> (p: u64)
    requires
        k <= 62,
    ensures
        p == pow2(k as nat),
        1 <= p <= 0x4000_0000_0000_0000,
{
    let mut p: u64 = 1;
    let mut i: u32 = 0;
    proof {
        lemma2_to64();
        lemma2_to64_rest();
    }
    while i < k
        invariant
            i <= k <= 62,
            p == pow2(i as nat),
            1 <= p,
            pow2(62) == 0x4000_0000_0000_0000,
        decreases k - i,
    {
        proof {
            lemma_pow2_unfold((i + 1) as nat);
            if i + 1 < 62 {
                lemma_pow2_strictly_increases((i + 1) as nat, 62);
            }
        }
        p = p * 2;
        i = i + 1;
    }
    proof {
        if k < 62 {
            lemma_pow2_strictly_increases(k as nat, 62);
        }
    }
    p
}

/// `n` rounded to 24 significant bits, ties to even.
fn rounded_to_significand(n: u64) -> (r: u64)
    requires
        n <= 0x100_0000_0000_0000,
    ensures
        r == round_significand(n as nat),
{
    let mut unit: u64 = 1;
    let mut quotient: u64 = n;
    let ghost mut shift: nat = 0;
    proof {
        lemma2_to64();
    }
    while quotient >= SIGNIFICAND_LIMIT
        invariant
            n <= 0x100_0000_0000_0000,
            unit == pow2(shift),
            1 <= unit <= 0x2_0000_0000,
            quotient == n / unit,
            excess_bits(n as nat) == shift + excess_bits(quotient as nat),
        decreases quotient,
    {
        proof {
            lemma_fundamental_div_mod(n as int, unit as int);
            assert(unit * quotient <= n) by {
                lemma_mul_is_commutative(unit as int, quotient as int);
            }
            assert(unit <= 0x1_0000_0000) by (nonlinear_arith)
                requires
                    unit * quotient <= n,
                    n <= 0x100_0000_0000_0000,
                    quotient >= 0x100_0000,
                    unit >= 1,
            ;
            lemma_div_denominator(n as int, unit as int, 2);
            lemma_pow2_unfold(shift + 1);
        }
        quotient = quotient / 2;
        unit = unit * 2;
        proof {
            shift = shift + 1;
        }
    }
    let remainder: u64 = n % unit;
    proof {
        lemma_fundamental_div_mod(n as int, unit as int);
        lemma_mul_is_commutative(unit as int, quotient as int);
        assert(remainder < unit);
        assert((quotient + 1) * unit <= 0x200_0000_0000_0000) by (nonlinear_arith)
            requires
                quotient < 0x100_0000,
                1 <= unit <= 0x2_0000_0000,
        ;
    }
    let nearest: u64 = if 2 * remainder < unit {
        quotient
    } else if 2 * remainder > unit {
        quotient + 1
    } else if quotient % 2 == 0 {
        quotient
    } else {
        quotient + 1
    };
    assert(nearest * unit <= (quotient + 1) * unit) by (nonlinear_arith)
        requires
            nearest <= quotient + 1,
            unit >= 1,
    ;
    nearest * unit
}

/// The whole part of `x * 2^e`, or the magnitude limit where that is smaller.
fn scaled_up(x: u64, e: u32) -> (capped: u64)
    ensures
        capped <= MAGNITUDE_LIMIT,
        capped == if floor_scaled(x as nat, e as int) >= MAGNITUDE_LIMIT {
            MAGNITUDE_LIMIT as nat
        } else {
            floor_scaled(x as nat, e as int)
        },
{
    proof {
        lemma_pow2_pos(e as nat);
        lemma2_to64();
    }
    if x == 0 {
        assert(0 * pow2(e as nat) == 0) by (nonlinear_arith);
        return 0;
    }
    if x >= MAGNITUDE_LIMIT {
        assert(x * pow2(e as nat) >= MAGNITUDE_LIMIT) by (nonlinear_arith)
            requires
                x >= MAGNITUDE_LIMIT,
                pow2(e as nat) >= 1,
        ;
        return MAGNITUDE_LIMIT;
    }
    if e >= 31 {
        proof {
            if e > 31 {
                lemma_pow2_strictly_increases(31, e as nat);
            }
        }
        assert(x * pow2(e as nat) >= MAGNITUDE_LIMIT) by (nonlinear_arith)
            requires
                x >= 1,
                pow2(e as nat) >= MAGNITUDE_LIMIT,
        ;
        return MAGNITUDE_LIMIT;
    }
    let factor: u64 = power_of_two(e);
    proof {
        lemma_pow2_strictly_increases(e as nat, 31);
    }
    assert(x * factor < 0x4000_0000_0000_0000) by (nonlinear_arith)
        requires
            x < 0x8000_0000,
            factor < 0x8000_0000,
    ;
    let whole: u64 = x * factor;
    if whole >= MAGNITUDE_LIMIT {
        MAGNITUDE_LIMIT
    } else {
        whole
    }
}

/// The whole part of `x / 2^k`, or the magnitude limit where that is smaller.
fn scaled_down(x: u64, k: u32) -> (capped: u64)
    requires
        k >= 1,
    ensures
        capped <= MAGNITUDE_LIMIT,
        capped == if floor_scaled(x as nat, -(k as int)) >= MAGNITUDE_LIMIT {
            MAGNITUDE_LIMIT as nat
        } else {
            floor_scaled(x as nat, -(k as int))
        },
{
    if k >= 62 {
        proof {
            lemma2_to64();
            lemma2_to64_rest();
            if k > 62 {
                lemma_pow2_strictly_increases(62, k as nat);
            }
            lemma_div_is_ordered_by_denominator(x as int, pow2(62) as int, pow2(k as nat) as int);
            assert(x as int / pow2(62) as int <= 3);
        }
        let whole: u64 = x / 0x4000_0000_0000_0000;
        proof {
            // Beyond 62 bits at most the top two bits of `x` are left, and
            // those only where the shift is 62 or 63.
            lemma_shifted_out(x as nat, k as nat);
        }
        if k == 62 {
            return whole;
        }
        if k == 63 {
            return whole / 2;
        }
        return 0;
    }
    let divisor: u64 = power_of_two(k);
    let whole: u64 = x / divisor;
    if whole >= MAGNITUDE_LIMIT {
        MAGNITUDE_LIMIT
    } else {
        whole
    }
}

/// The signed value of a capped magnitude.
fn saturated(sign: bool, capped: u64) -> (v: i32)
    requires
        capped <= MAGNITUDE_LIMIT,
    ensures
        v == saturate(sign, capped as nat),
{
    if sign {
        if capped >= MAGNITUDE_LIMIT {
            i32::MIN
        } else {
            -(capped as i32)
        }
    } else {
        if capped >= MAGNITUDE_LIMIT {
            i32::MAX
        } else {
            capped as i32
        }
    }
}

/// What is left of a 64-bit number after 62 or more of its low bits are dropped.
proof fn lemma_shifted_out(x: nat, k: nat)
    requires
        x <= u64::MAX,
        k >= 62,
    ensures
        k == 62 ==> x / pow2(k) == x / 0x4000_0000_0000_0000,
        k == 63 ==> x / pow2(k) == (x / 0x4000_0000_0000_0000) / 2,
        k >= 64 ==> x / pow2(k) == 0,
{
    lemma2_to64();
    lemma2_to64_rest();
    if k == 63 {
        lemma_pow2_unfold(63);
        lemma_div_denominator(x as int, 0x4000_0000_0000_0000, 2);
    }
    if k >= 64 {
        if k > 64 {
            lemma_pow2_strictly_increases(64, k);
        }
        lemma_basic_div(x as int, pow2(k) as int);
    }
}

/// Rounding to 24 significant bits keeps a number below a power of two at or
/// below that power.
pub proof fn lemma_round_significand_bound(n: nat, bits: nat)
    requires
        bits >= 24,
        n <= pow2(bits),
    ensures
        round_significand(n) <= pow2(bits),
    decreases n,
{
    lemma2_to64();
    let s = excess_bits(n);
    let unit = pow2(s);
    lemma_pow2_pos(s);
    lemma_excess_bits_range(n);
    lemma_fundamental_div_mod(n as int, unit as int);
    let q = n / unit;
    if s == 0 {
        assert(unit == 1);
        assert(n as int / 1 == n && n as int % 1 == 0);
        assert(round_half_even(n, 1) == n);
        assert(round_significand(n) == n) by (nonlinear_arith)
            requires
                round_significand(n) == round_half_even(n, 1) * 1,
                round_half_even(n, 1) == n,
        ;
    } else {
        // n < 2^(24 + s), so q < 2^24 and the rounded value is at most 2^(24 + s);
        // and 2^(23 + s) <= n <= 2^bits puts 24 + s at or below bits, unless n
        // is that power itself, which rounding leaves alone.
        lemma_pow2_adds(24, s);
        lemma_pow2_adds(23, s);
        assert(q < 0x100_0000) by {
            if q >= 0x100_0000 {
                assert(unit * q >= unit * 0x100_0000) by (nonlinear_arith)
                    requires
                        q >= 0x100_0000,
                        unit >= 0,
                ;
            }
        }
        assert(round_half_even(n, unit) <= q + 1);
        assert(round_significand(n) <= (q + 1) * unit) by (nonlinear_arith)
            requires
                round_significand(n) == round_half_even(n, unit) * unit,
                round_half_even(n, unit) <= q + 1,
                unit >= 0,
        ;
        assert((q + 1) * unit <= 0x100_0000 * unit) by (nonlinear_arith)
            requires
                q < 0x100_0000,
                unit >= 0,
        ;
        if 24 + s <= bits {
            if 24 + s < bits {
                lemma_pow2_strictly_increases(24 + s, bits);
            }
        } else {
            // bits < 24 + s, so bits <= 23 + s: n >= 2^(23 + s) >= 2^bits >= n.
            if bits < 23 + s {
                lemma_pow2_strictly_increases(bits, 23 + s);
            }
            assert(n == pow2(23 + s));
            assert(n == 0x80_0000 * unit);
            lemma_div_multiples_vanish(0x80_0000, unit as int);
            lemma_mod_multiples_basic(0x80_0000, unit as int);
            assert(q == 0x80_0000);
            assert(n % unit == 0);
            assert(round_half_even(n, unit) == q);
        }
    }
}

/// Rounding takes the nearest: the rounded quotient, times the divisor, is
/// within half the divisor of the number divided.
pub proof fn lemma_round_half_even_is_nearest(n: nat, d: nat)
    requires
        d > 0,
    ensures
        2 * (round_half_even(n, d) * d - n) <= d,
        2 * (n - round_half_even(n, d) * d) <= d,
{
    lemma_fundamental_div_mod(n as int, d as int);
    let q = n / d;
    let r = n % d;
    assert(n == q * d + r) by {
        lemma_mul_is_commutative(d as int, q as int);
    }
    assert((q + 1) * d == q * d + d) by (nonlinear_arith);
}

/// A number rounded to 24 significant bits is a multiple of its unit by at
/// most `2^24`, and lies within half that unit of the number.
pub proof fn lemma_round_significand_is_nearest(n: nat)
    ensures
        round_half_even(n, pow2(excess_bits(n))) <= SIGNIFICAND_LIMIT,
        2 * (round_significand(n) - n) <= pow2(excess_bits(n)),
        2 * (n - round_significand(n)) <= pow2(excess_bits(n)),
{
    let s = excess_bits(n);
    let unit = pow2(s);
    lemma_pow2_pos(s);
    lemma_round_half_even_is_nearest(n, unit);
    lemma_excess_bits_range(n);
    lemma_pow2_adds(24, s);
    lemma2_to64();
    lemma_fundamental_div_mod(n as int, unit as int);
    let q = n / unit;
    if q >= SIGNIFICAND_LIMIT {
        assert(unit * q >= unit * 0x100_0000) by (nonlinear_arith)
            requires
                q >= 0x100_0000,
                unit >= 0,
        ;
    }
}

/// A number that fits in 24 bits, times a power of two, has 24 significant
/// bits at most: rounding leaves it as it is.
pub proof fn lemma_round_significand_exact(a: nat, k: nat)
    requires
        a < SIGNIFICAND_LIMIT,
    ensures
        round_significand(a * pow2(k)) == a * pow2(k),
{
    lemma2_to64();
    let n = a * pow2(k);
    let s = excess_bits(n);
    let unit = pow2(s);
    lemma_pow2_pos(k);
    lemma_pow2_pos(s);
    lemma_excess_bits_range(n);
    lemma_pow2_adds(24, k);
    assert(n < pow2(24 + k)) by (nonlinear_arith)
        requires
            n == a * pow2(k),
            a < 0x100_0000,
            pow2(24 + k) == 0x100_0000 * pow2(k),
            pow2(k) > 0,
    ;
    if s > k {
        // Then 2^(23 + s) <= n < 2^(24 + k) with 24 + k <= 23 + s.
        if 24 + k < 23 + s {
            lemma_pow2_strictly_increases(24 + k, 23 + s);
        }
        assert(false);
    }
    let rest = pow2((k - s) as nat);
    lemma_pow2_adds((k - s) as nat, s);
    assert(n == unit * (a * rest)) by (nonlinear_arith)
        requires
            n == a * pow2(k),
            pow2(k) == rest * unit,
    ;
    lemma_mul_is_commutative(unit as int, (a * rest) as int);
    lemma_div_multiples_vanish((a * rest) as int, unit as int);
    lemma_mod_multiples_basic((a * rest) as int, unit as int);
    assert(n / unit == a * rest);
    assert(n % unit == 0);
    assert(round_half_even(n, unit) == a * rest);
}

/// A share that is not negative, of an extent that is not negative, is not negative.
pub proof fn lemma_scale_not_negative(f: Fraction, extent: int)
    requires
        !f.negative(),
        extent >= 0,
    ensures
        0 <= f.spec_scale(extent) <= i32::MAX,
{
}

/// Whatever the share and the extent, the pixels fit in 32 bits.
pub proof fn lemma_scale_in_range(f: Fraction, extent: int)
    ensures
        i32::MIN <= f.spec_scale(extent) <= i32::MAX,
{
}

/// The fraction one half.
pub open spec fn one_half() -> Fraction {
    Fraction { bits: 0x3f00_0000 }
}

/// The fraction one.
pub open spec fn one_whole() -> Fraction {
    Fraction { bits: 0x3f80_0000 }
}

/// Rounding does not pass a whole multiple: a number at or below `q` times
/// the divisor rounds to `q` at most.
pub proof fn lemma_round_half_even_bounded(n: nat, d: nat, q: nat)
    requires
        d > 0,
        n <= q * d,
    ensures
        round_half_even(n, d) <= q,
{
    lemma_fundamental_div_mod(n as int, d as int);
    lemma_mul_is_commutative(d as int, (n / d) as int);
    let q0 = n / d;
    let r = n % d;
    assert(n == q0 * d + r);
    if q0 >= q {
        assert(q0 == q && r == 0) by (nonlinear_arith)
            requires
                q0 >= q,
                d > 0,
                r >= 0,
                n == q0 * d + r,
                n <= q * d,
        ;
    }
}

/// A share between nothing and the whole, of an extent below `2^24`, lies
/// between nothing and the extent: a dock never outgrows its screen.
pub proof fn lemma_scale_within_extent(f: Fraction, extent: int)
    requires
        f.bits <= one_whole().bits,
        0 <= extent < SIGNIFICAND_LIMIT,
    ensures
        0 <= f.spec_scale(extent) <= extent,
{
    lemma2_to64();
    let a = extent as nat;
    let m = f.significand();
    let ef = f.exponent_field();
    assert(ef <= 127);
    assert(ef == 127 ==> f.fraction_field() == 0);
    let up = (-f.exponent()) as nat;
    let whole = pow2(up);
    assert(up >= 23);
    if up > 23 {
        lemma_pow2_strictly_increases(23, up);
    }
    if up > 24 {
        lemma_pow2_strictly_increases(24, up);
    }
    assert(m <= whole);
    lemma_round_significand_exact(a, 0);
    assert(a * pow2(0) == a) by (nonlinear_arith)
        requires
            pow2(0) == 1,
    ;
    let n = a * m;
    assert(n <= a * whole) by (nonlinear_arith)
        requires
            n == a * m,
            m <= whole,
    ;
    let s = excess_bits(n);
    let unit = pow2(s);
    lemma_pow2_pos(s);
    lemma_excess_bits_range(n);
    assert(round_significand(n) <= a * whole) by {
        if s == 0 {
            assert(n as int / 1 == n && n as int % 1 == 0);
            assert(round_half_even(n, 1) == n);
            assert(round_significand(n) == n) by (nonlinear_arith)
                requires
                    round_significand(n) == round_half_even(n, 1) * 1,
                    round_half_even(n, 1) == n,
            ;
        } else {
            if s > up {
                lemma_pow2_adds(24, up);
                if 23 + s > 24 + up {
                    lemma_pow2_strictly_increases(24 + up, 23 + s);
                }
                assert(a * whole < 0x100_0000 * whole) by (nonlinear_arith)
                    requires
                        a < 0x100_0000,
                        whole > 0,
                ;
                assert(false);
            }
            let rest = pow2((up - s) as nat);
            lemma_pow2_adds((up - s) as nat, s);
            let q = a * rest;
            assert(q * unit == a * whole) by (nonlinear_arith)
                requires
                    q == a * rest,
                    whole == rest * unit,
            ;
            lemma_round_half_even_bounded(n, unit, q);
            assert(round_half_even(n, unit) * unit <= q * unit) by (nonlinear_arith)
                requires
                    round_half_even(n, unit) <= q,
                    unit > 0,
            ;
        }
    }
    lemma_pow2_pos(up);
    lemma_div_is_ordered(round_significand(n) as int, (a * whole) as int, whole as int);
    lemma_div_multiples_vanish(a as int, whole as int);
    lemma_mul_is_commutative(a as int, whole as int);
}

/// One half of an extent below `2^24` is the extent divided by two, without
/// the remainder.
pub proof fn lemma_scale_by_one_half(extent: int)
    requires
        0 <= extent < SIGNIFICAND_LIMIT,
    ensures
        one_half().spec_scale(extent) == extent / 2,
{
    lemma2_to64();
    let f = one_half();
    assert(f.exponent_field() == 126);
    assert(f.fraction_field() == 0);
    assert(f.significand() == 0x80_0000);
    assert(f.exponent() == -24);
    let a = extent as nat;
    lemma_round_significand_exact(a, 0);
    assert(a * pow2(0) == a) by (nonlinear_arith)
        requires
            pow2(0) == 1,
    ;
    assert(round_significand(a) == a);
    lemma_round_significand_exact(a, 23);
    let n = a * 0x80_0000;
    assert(round_significand(n) == n);
    assert(n / 0x100_0000 == a / 2) by {
        lemma_div_denominator(n as int, 0x80_0000, 2);
        lemma_div_multiples_vanish(a as int, 0x80_0000);
        assert(n == 0x80_0000 * a);
    }
}

/// The whole of an extent within 24 bits is the extent.
pub proof fn lemma_scale_by_one_whole(extent: int)
    requires
        -(SIGNIFICAND_LIMIT as int) < extent < SIGNIFICAND_LIMIT,
    ensures
        one_whole().spec_scale(extent) == extent,
{
    lemma2_to64();
    let f = one_whole();
    assert(f.exponent_field() == 127);
    assert(f.fraction_field() == 0);
    assert(f.significand() == 0x80_0000);
    assert(f.exponent() == -23);
    let a = magnitude(extent);
    lemma_round_significand_exact(a, 0);
    assert(a * pow2(0) == a) by (nonlinear_arith)
        requires
            pow2(0) == 1,
    ;
    assert(round_significand(a) == a);
    lemma_round_significand_exact(a, 23);
    let n = a * 0x80_0000;
    assert(round_significand(n) == n);
    assert(n / 0x80_0000 == a) by {
        lemma_div_multiples_vanish(a as int, 0x80_0000);
        assert(n == 0x80_0000 * a);
    }
}

/// A number with `excess_bits(n)` excess bits lies in the band of that width:
/// below `2^(24 + s)`, and at or above `2^(23 + s)` unless `s` is zero.
pub proof fn lemma_excess_bits_range(n: nat)
    ensures
        n < pow2(24 + excess_bits(n)),
        excess_bits(n) > 0 ==> n >= pow2(23 + excess_bits(n)),
    decreases n,
{
    lemma2_to64();
    if n >= SIGNIFICAND_LIMIT {
        lemma_excess_bits_range(n / 2);
        let s = excess_bits(n / 2);
        lemma_pow2_unfold(24 + s + 1);
        lemma_pow2_unfold(23 + s + 1);
        assert(excess_bits(n) == s + 1);
    }
}

} // verus!
