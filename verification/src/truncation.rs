//! Whole parts and remainders of [`Scalar`] numbers.

use crate::arithmetic::{round_units, split};
use crate::rounding::{lemma_nearest_is, nearest, power_of_two, units, Exact, INFINITE};
use crate::scalar::{absolute, below, sum, with_sign, Scalar, QUIET_NAN, SIGN};
use vstd::arithmetic::div_mod::{
    lemma_div_denominator, lemma_div_multiples_vanish, lemma_fundamental_div_mod,
    lemma_fundamental_div_mod_converse, lemma_mul_mod_noop_left, lemma_small_mod,
    lemma_truncate_middle,
};
use vstd::arithmetic::power2::{lemma_pow2_adds, lemma_pow2_pos, lemma_pow2_unfold, pow2};
use vstd::prelude::*;

verus! {

/// The greatest integer that is not above a finite number.
pub open spec fn floor_value(a: Scalar) -> int {
    a.value() / pow2(149) as int
}

/// The integer nearest to `n` in the range of 32-bit numbers.
pub open spec fn saturated(n: int) -> i32 {
    if n < i32::MIN {
        i32::MIN
    } else if n > i32::MAX {
        i32::MAX
    } else {
        n as i32
    }
}

/// The greatest integer that is not above the number, kept within the range of 32-bit numbers;
/// zero for a NaN.
pub open spec fn floored(a: Scalar) -> i32 {
    if a.nan() {
        0
    } else if a.infinite() {
        if a.negative() {
            i32::MIN
        } else {
            i32::MAX
        }
    } else {
        saturated(floor_value(a))
    }
}

/// What is left of `a` after as many whole `b` as fit are taken out; it has the sign of `a`.
pub open spec fn remainder(a: Scalar, b: Scalar) -> Scalar {
    if a.nan() || a.infinite() || b.nan() || b.zero() {
        Scalar { bits: QUIET_NAN }
    } else if b.infinite() {
        a
    } else {
        with_sign(
            a.negative(),
            nearest(
                Exact::Ratio { num: units(a.magnitude()) % units(b.magnitude()), den: 1 },
            ),
        )
    }
}

/// The remainder, moved up into the range from zero on.
pub open spec fn euclidean_remainder(a: Scalar, b: Scalar) -> Scalar {
    if below(remainder(a, b), Scalar { bits: 0 }) {
        sum(remainder(a, b), absolute(b))
    } else {
        remainder(a, b)
    }
}

/// The lesser of two numbers. A NaN gives way to the other operand, and of the two zeros the
/// negative one is the lesser.
pub open spec fn minimum(a: Scalar, b: Scalar) -> Scalar {
    if a.nan() {
        b
    } else if b.nan() {
        a
    } else if b.place() < a.place() || (a.place() == b.place() && b.negative()) {
        b
    } else {
        a
    }
}

/// Dividing a shifted number by a greater power of two takes digits off.
proof fn lemma_shift_down(s: int, k: nat, n: nat)
    requires
        0 <= s,
        k <= n,
    ensures
        (s * pow2(k)) / (pow2(n) as int) == s / (pow2((n - k) as nat) as int),
        (s * pow2(k)) % (pow2(n) as int) == 0 <==> s % (pow2((n - k) as nat) as int) == 0,
{
    let c = pow2(k) as int;
    let d = pow2((n - k) as nat) as int;
    lemma_pow2_pos(k);
    lemma_pow2_pos((n - k) as nat);
    lemma_pow2_adds(k, (n - k) as nat);
    assert(pow2(n) == c * d);
    lemma_truncate_middle(s, c, d);
    assert(s * c == c * s && c * d == d * c) by (nonlinear_arith);
    lemma_div_denominator(c * s, c, d);
    lemma_div_multiples_vanish(s, c);
    if s % d == 0 {
        assert((s * c) % (c * d) == 0) by {
            assert(c * 0 == 0);
        }
    } else {
        assert(c * (s % d) != 0) by (nonlinear_arith)
            requires
                c > 0,
                s % d != 0,
        ;
    }
}

/// Rounding down below zero goes away from zero.
proof fn lemma_floor_negative(x: int, d: int)
    requires
        0 <= x,
        0 < d,
    ensures
        (-x) / d == if x % d == 0 {
            -(x / d)
        } else {
            -(x / d) - 1
        },
{
    let q = x / d;
    let r = x % d;
    lemma_fundamental_div_mod(x, d);
    if r == 0 {
        assert(-x == d * (-q)) by (nonlinear_arith)
            requires
                x == d * q + r,
                r == 0,
        ;
        lemma_div_multiples_vanish(-q, d);
    } else {
        assert(-x == (-q - 1) * d + (d - r)) by (nonlinear_arith)
            requires
                x == d * q + r,
        ;
        lemma_fundamental_div_mod_converse(-x, d, -q - 1, d - r);
    }
}

/// Where the significand is shifted up, the number is whole.
proof fn lemma_whole(s: int, k: nat)
    requires
        0 <= s,
        149 <= k,
    ensures
        (s * pow2(k)) / (pow2(149) as int) == s * pow2((k - 149) as nat),
        (-(s * pow2(k))) / (pow2(149) as int) == -(s * pow2((k - 149) as nat)),
{
    let w = s * pow2((k - 149) as nat);
    let d = pow2(149) as int;
    lemma_pow2_pos(149);
    lemma_pow2_adds((k - 149) as nat, 149);
    let p = pow2((k - 149) as nat) as int;
    assert(s * (p * d) == d * (s * p)) by (nonlinear_arith);
    assert(-(d * w) == d * (-w)) by (nonlinear_arith);
    lemma_div_multiples_vanish(w, d);
    lemma_div_multiples_vanish(-w, d);
}

/// A significand is below any power of two from `2^24` on.
proof fn lemma_significand_small(s: int, n: nat)
    requires
        0 <= s < 0x100_0000,
        24 <= n,
    ensures
        s < pow2(n),
        s / (pow2(n) as int) == 0,
        s % (pow2(n) as int) == s,
{
    assert(pow2(24) == 0x100_0000) by {
        vstd::arithmetic::power2::lemma2_to64();
    }
    if n > 24 {
        vstd::arithmetic::power2::lemma_pow2_strictly_increases(24, n);
    }
    lemma_small_mod(s as nat, pow2(n));
    vstd::arithmetic::div_mod::lemma_basic_div(s, pow2(n) as int);
}

impl Scalar {
    /// Rounds down to a 32-bit number.
    pub fn floor_to_i32(self) -> (r: i32)
        ensures
            r == floored(self),
    {
        if self.is_nan() {
            return 0;
        }
        let negative = self.bits >= SIGN;
        let m = self.magnitude_bits();
        if m == INFINITE {
            return if negative {
                i32::MIN
            } else {
                i32::MAX
            };
        }
        let p = split(m);
        let ghost s = p.significand as int;
        let ghost k = p.exponent as nat;
        if p.exponent >= 149 {
            proof {
                lemma_whole(s, k);
            }
            let up: u32 = p.exponent - 149;
            if up >= 8 {
                proof {
                    assert(pow2(8) == 0x100) by {
                        vstd::arithmetic::power2::lemma2_to64();
                    }
                    if up > 8 {
                        vstd::arithmetic::power2::lemma_pow2_strictly_increases(8, up as nat);
                    }
                    assert(s * pow2(up as nat) >= 0x80_0000 * 0x100) by (nonlinear_arith)
                        requires
                            s >= 0x80_0000,
                            pow2(up as nat) >= 0x100,
                    ;
                }
                return if negative {
                    i32::MIN
                } else {
                    i32::MAX
                };
            }
            let factor = power_of_two(up);
            proof {
                assert(pow2(7) == 0x80) by {
                    vstd::arithmetic::power2::lemma2_to64();
                }
                if up < 7 {
                    vstd::arithmetic::power2::lemma_pow2_strictly_increases(up as nat, 7);
                }
                assert(0 <= s * factor < 0x8000_0000) by (nonlinear_arith)
                    requires
                        0 <= s < 0x100_0000,
                        0 <= factor <= 0x80,
                ;
            }
            let q: i64 = p.significand as i64 * factor as i64;
            return if negative {
                (-q) as i32
            } else {
                q as i32
            };
        }
        let down: u32 = 149 - p.exponent;
        proof {
            lemma_shift_down(s, k, 149);
            lemma_pow2_pos(149);
            lemma_pow2_pos(down as nat);
            assert(s * pow2(k) >= 0) by (nonlinear_arith)
                requires
                    s >= 0,
                    pow2(k) >= 0,
            ;
            lemma_floor_negative(s * pow2(k), pow2(149) as int);
        }
        let mut q: i64 = 0;
        let mut whole = p.significand == 0;
        if down < 24 {
            let factor = power_of_two(down);
            proof {
                assert(pow2(24) == 0x100_0000) by {
                    vstd::arithmetic::power2::lemma2_to64();
                }
                vstd::arithmetic::power2::lemma_pow2_strictly_increases(down as nat, 24);
                vstd::arithmetic::div_mod::lemma_div_is_ordered_by_denominator(s, 1, factor as int);
            }
            q = (p.significand / factor as u32) as i64;
            whole = p.significand % factor as u32 == 0;
        } else {
            proof {
                lemma_significand_small(s, down as nat);
            }
        }
        if !negative {
            q as i32
        } else if whole {
            (-q) as i32
        } else {
            (-q - 1) as i32
        }
    }

    pub fn rem(self, rhs: Scalar) -> (r: Scalar)
        ensures
            r == remainder(self, rhs),
    {
        let ma = self.magnitude_bits();
        let mb = rhs.magnitude_bits();
        if ma >= INFINITE || mb > INFINITE || mb == 0 {
            return Scalar { bits: QUIET_NAN };
        }
        if mb == INFINITE {
            return self;
        }
        let a = split(ma);
        let b = split(mb);
        let ghost num = units(self.magnitude()) % units(rhs.magnitude());
        let sb: u64 = b.significand as u64;
        let mut left: u64;
        let scale: u32;
        if a.exponent >= b.exponent {
            let shift: u32 = a.exponent - b.exponent;
            left = a.significand as u64 % sb;
            scale = b.exponent;
            let mut i: u32 = 0;
            proof {
                assert(pow2(0) == 1) by {
                    vstd::arithmetic::power2::lemma2_to64();
                }
            }
            while i < shift
                invariant
                    i <= shift,
                    0 < sb < 0x100_0000,
                    left < sb,
                    left == (a.significand * pow2(i as nat)) % (sb as int),
                decreases shift - i,
            {
                proof {
                    lemma_double_mod(a.significand as int, i as nat, sb as int);
                }
                left = (left * 2) % sb;
                i = i + 1;
            }
            proof {
                lemma_scaled_mod(
                    a.significand as int,
                    shift as nat,
                    b.significand as int,
                    b.exponent as nat,
                );
            }
        } else {
            let shift: u32 = b.exponent - a.exponent;
            scale = a.exponent;
            left = a.significand as u64;
            if shift < 24 {
                let factor = power_of_two(shift);
                proof {
                    assert(pow2(24) == 0x100_0000) by {
                        vstd::arithmetic::power2::lemma2_to64();
                    }
                    vstd::arithmetic::power2::lemma_pow2_strictly_increases(shift as nat, 24);
                    lemma_pow2_pos(shift as nat);
                    assert(0 < sb * factor < 0x1_0000_0000_0000) by (nonlinear_arith)
                        requires
                            0 < sb < 0x100_0000,
                            0 < factor < 0x100_0000,
                    ;
                }
                left = left % (sb * factor as u64);
            }
            proof {
                lemma_shifted_mod(
                    a.significand as int,
                    a.exponent as nat,
                    b.significand as int,
                    shift as nat,
                );
            }
        }
        let m = round_units(left as u128, scale, Ghost(num));
        proof {
            lemma_nearest_is(Exact::Ratio { num, den: 1 }, m);
        }
        Self::compose(self.bits >= SIGN, m)
    }

    pub fn rem_euclid(self, rhs: Scalar) -> (r: Scalar)
        ensures
            r == euclidean_remainder(self, rhs),
    {
        let r = self.rem(rhs);
        if r.is_below(Scalar { bits: 0 }) {
            r.plus(rhs.abs())
        } else {
            r
        }
    }
}

/// Doubling the remainder and reducing it doubles the dividend.
proof fn lemma_double_mod(s: int, i: nat, d: int)
    requires
        0 < d,
    ensures
        (((s * pow2(i)) % d) * 2) % d == (s * pow2(i + 1)) % d,
{
    lemma_pow2_unfold(i + 1);
    let x = s * pow2(i);
    let p = pow2(i) as int;
    assert(s * (2 * p) == (s * p) * 2) by (nonlinear_arith);
    lemma_mul_mod_noop_left(x, 2, d);
}

/// A common power of two goes through the remainder.
proof fn lemma_scaled_mod(s: int, shift: nat, d: int, k: nat)
    requires
        0 <= s,
        0 < d,
    ensures
        (s * pow2(shift + k)) % (d * pow2(k)) == ((s * pow2(shift)) % d) * pow2(k),
{
    let c = pow2(k) as int;
    lemma_pow2_pos(k);
    lemma_pow2_adds(shift, k);
    let p = pow2(shift) as int;
    let x = s * p;
    assert(x >= 0) by (nonlinear_arith)
        requires
            s >= 0,
            p >= 0,
            x == s * p,
    ;
    assert(s * (p * c) == c * (s * p)) by (nonlinear_arith);
    assert(d * c == c * d) by (nonlinear_arith);
    lemma_truncate_middle(x, c, d);
    assert((x % d) * c == c * (x % d)) by (nonlinear_arith);
}

/// The remainder by a number whose significand is shifted up.
proof fn lemma_shifted_mod(s: int, k: nat, d: int, shift: nat)
    requires
        0 <= s < 0x100_0000,
        0x80_0000 <= d,
        0 < shift,
    ensures
        (s * pow2(k)) % (d * pow2(shift + k)) == (if shift < 24 {
            s % (d * pow2(shift))
        } else {
            s
        }) * pow2(k),
{
    let c = pow2(k) as int;
    let p = pow2(shift) as int;
    lemma_pow2_pos(k);
    lemma_pow2_pos(shift);
    lemma_pow2_adds(shift, k);
    let e = d * p;
    assert(d * (p * c) == c * (d * p)) by (nonlinear_arith);
    assert(s * c == c * s) by (nonlinear_arith);
    assert(e > 0) by (nonlinear_arith)
        requires
            d > 0,
            p > 0,
            e == d * p,
    ;
    lemma_truncate_middle(s, c, e);
    if shift >= 24 {
        lemma_significand_small(s, shift);
        assert(s < e) by (nonlinear_arith)
            requires
                s < p,
                p > 0,
                d >= 1,
                e == d * p,
        ;
        lemma_small_mod(s as nat, e as nat);
    }
    let r = s % e;
    assert(r * c == c * r) by (nonlinear_arith);
}

impl Scalar {
    pub fn min(self, rhs: Scalar) -> (r: Scalar)
        ensures
            r == minimum(self, rhs),
    {
        if self.is_nan() {
            return rhs;
        }
        if rhs.is_nan() {
            return self;
        }
        if rhs.is_below(self) || (self.equals_value(rhs) && rhs.bits >= SIGN) {
            rhs
        } else {
            self
        }
    }
}

} // verus!
