//! The arithmetic operations on [`Scalar`].

use crate::rounding::{
    in_step, lemma_nearest_is, lemma_ratio_in_step, power_of_two, rounds_to, round_step, scale_up,
    units, Exact, INFINITE,
};
use crate::scalar::{
    difference, of_integer, of_signed, product, quotient, root, sum, Scalar, QUIET_NAN, SIGN,
};
use vstd::arithmetic::power2::{lemma_pow2_adds, lemma_pow2_pos, lemma_pow2_unfold, pow2};
use vstd::prelude::*;

verus! {

/// A finite magnitude as an integer times a power of two.
pub struct Parts {
    pub significand: u32,
    pub exponent: u32,
}

impl Parts {
    pub open spec fn of(self, m: int) -> bool {
        &&& units(m) == self.significand * pow2(self.exponent as nat)
        &&& self.significand < 0x100_0000
        &&& self.exponent <= 253
        &&& self.exponent > 0 ==> self.significand >= 0x80_0000
    }
}

pub(crate) fn split(m: u32) -> (p: Parts)
    requires
        m < INFINITE,
    ensures
        p.of(m as int),
        p.significand == 0 <==> m == 0,
{
    assert(pow2(0) == 1) by {
        vstd::arithmetic::power2::lemma2_to64();
    }
    let field: u32 = m / 0x80_0000;
    let fraction: u32 = m % 0x80_0000;
    proof {
        assert(fraction * 1 == fraction);
        assert(m as int / 0x80_0000 == field);
        assert(m as int % 0x80_0000 == fraction);
    }
    if field == 0 {
        Parts { significand: fraction, exponent: 0 }
    } else {
        Parts { significand: fraction + 0x80_0000, exponent: field - 1 }
    }
}

proof fn lemma_power_bounds()
    ensures
        pow2(24) == 0x100_0000,
        pow2(60) == 0x1000_0000_0000_0000,
        pow2(90) == 0x400_0000_0000_0000_0000_0000,
        pow2(0) == 1,
{
    vstd::arithmetic::power2::lemma2_to64();
    vstd::arithmetic::power2::lemma2_to64_rest();
    lemma_pow2_adds(60, 30);
}

/// The magnitude of the sum or difference of two finite magnitudes whose exponents are far
/// apart.
fn combine_far(hi: Parts, lo: Parts, subtract: bool, Ghost(num): Ghost<int>) -> (m: u32)
    requires
        hi.significand < 0x100_0000,
        lo.significand < 0x100_0000,
        hi.significand >= 0x80_0000,
        hi.exponent <= 253,
        lo.exponent + 90 < hi.exponent,
        num == hi.significand * pow2(hi.exponent as nat) + if subtract {
            -(lo.significand * pow2(lo.exponent as nat))
        } else {
            lo.significand * pow2(lo.exponent as nat)
        },
    ensures
        num > 0,
        rounds_to(Exact::Ratio { num, den: 1 }, m as int),
{
    proof {
        lemma_power_bounds();
    }
    let t: u128 = hi.significand as u128 * 0x1000_0000_0000_0000u128;
    let e: i32 = hi.exponent as i32 - 60;
    let inexact = lo.significand != 0;
    let ghost up = scale_up(e as int);
    let ghost small = lo.significand * pow2(lo.exponent as nat);
    proof {
        lemma_pow2_pos(e as nat);
        lemma_pow2_pos(lo.exponent as nat);
        lemma_pow2_adds(60, e as nat);
        assert(t * up == hi.significand * pow2(hi.exponent as nat)) by {
            assert((hi.significand * pow2(60)) * up == hi.significand * (pow2(60) * up)) by (nonlinear_arith);
        }
        lemma_pow2_adds(24, lo.exponent as nat);
        let bound = (24 + lo.exponent) as nat;
        if bound < e {
            vstd::arithmetic::power2::lemma_pow2_strictly_increases(bound, e as nat);
        }
        assert(small < up && small >= 0 && (small == 0 <==> lo.significand == 0)) by {
            assert(lo.significand * pow2(lo.exponent as nat) < 0x100_0000 * pow2(
                lo.exponent as nat,
            ) && lo.significand * pow2(lo.exponent as nat) >= 0 && (lo.significand > 0
                ==> lo.significand * pow2(lo.exponent as nat) > 0) && (lo.significand == 0
                ==> lo.significand * pow2(lo.exponent as nat) == 0)) by (nonlinear_arith)
                requires
                    lo.significand < 0x100_0000,
                    pow2(lo.exponent as nat) > 0,
            ;
        }
        assert((t + 1) * up == t * up + up && (t - 1) * up == t * up - up) by (nonlinear_arith);
        assert(t * up * 1 == t * up && (t + 1) * up * 1 == (t + 1) * up && (t - 1) * up * 1 == (t
            - 1) * up && num * 1 == num && (t - 1 + 1) * up == t * up);
        assert(t * up >= up) by (nonlinear_arith)
            requires
                t >= 1,
                up > 0,
        ;
    }
    if subtract && inexact {
        proof {
            lemma_ratio_in_step(num, 1, t - 1, true, e as int);
        }
        round_step(t - 1, true, e, Ghost(Exact::Ratio { num, den: 1 }))
    } else {
        proof {
            lemma_ratio_in_step(num, 1, t as int, inexact, e as int);
        }
        round_step(t, inexact, e, Ghost(Exact::Ratio { num, den: 1 }))
    }
}

/// The magnitude of an integer number of units, given with a power of two split off.
pub(crate) fn round_units(s: u128, e: u32, Ghost(num): Ghost<int>) -> (m: u32)
    requires
        s < 0x100_0000_0000_0000_0000_0000_0000_0000,
        e <= 400,
        num == s * pow2(e as nat),
    ensures
        rounds_to(Exact::Ratio { num, den: 1 }, m as int),
{
    proof {
        lemma_power_bounds();
        lemma_pow2_pos(e as nat);
        let up = scale_up(e as int);
        assert((s + 1) * up == s * up + up && s * up >= 0) by (nonlinear_arith)
            requires
                up > 0,
                s >= 0,
        ;
        lemma_ratio_in_step(num, 1, s as int, false, e as int);
    }
    round_step(s, false, e as i32, Ghost(Exact::Ratio { num, den: 1 }))
}

impl Scalar {
    /// The sum of two finite numbers, the first with the greater or the same exponent.
    fn add_ordered(a: Scalar, b: Scalar, hi: Parts, lo: Parts) -> (r: Scalar)
        requires
            a.finite(),
            b.finite(),
            hi.of(a.magnitude()),
            lo.of(b.magnitude()),
            hi.exponent >= lo.exponent,
        ensures
            r == sum(a, b),
            r == sum(b, a),
    {
        let subtract = (a.bits >= SIGN) != (b.bits >= SIGN);
        let gap: u32 = hi.exponent - lo.exponent;
        let ghost total = a.value() + b.value();
        if gap > 90 {
            let ghost num = if a.negative() {
                -total
            } else {
                total
            };
            let m = combine_far(hi, lo, subtract, Ghost(num));
            proof {
                lemma_nearest_is(Exact::Ratio { num, den: 1 }, m);
            }
            return Self::compose(a.bits >= SIGN, m);
        }
        let factor = power_of_two(gap);
        proof {
            lemma_power_bounds();
            if gap < 90 {
                vstd::arithmetic::power2::lemma_pow2_strictly_increases(gap as nat, 90);
            }
            lemma_pow2_pos(gap as nat);
            assert(hi.significand * factor < 0x100_0000 * 0x400_0000_0000_0000_0000_0000
                && hi.significand * factor >= 0) by (nonlinear_arith)
                requires
                    hi.significand < 0x100_0000,
                    0 < factor <= 0x400_0000_0000_0000_0000_0000,
            ;
        }
        let big: u128 = hi.significand as u128 * factor;
        let small: u128 = lo.significand as u128;
        let ghost p = pow2(lo.exponent as nat) as int;
        proof {
            lemma_pow2_pos(lo.exponent as nat);
            lemma_pow2_adds(gap as nat, lo.exponent as nat);
            assert(big * p == hi.significand * pow2(hi.exponent as nat)) by {
                assert((hi.significand * factor) * p == hi.significand * (factor * p)) by (nonlinear_arith);
            }
            assert((big + small) * p == big * p + small * p) by (nonlinear_arith);
            assert((big - small) * p == big * p - small * p) by (nonlinear_arith);
            assert((small - big) * p == small * p - big * p) by (nonlinear_arith);
        }
        if !subtract {
            let s: u128 = big + small;
            if s == 0 {
                proof {
                    assert(big * p == 0 && small * p == 0) by (nonlinear_arith)
                        requires
                            big == 0,
                            small == 0,
                    ;
                }
                return Self::compose(a.bits >= SIGN, 0);
            }
            let ghost num = if a.negative() {
                -total
            } else {
                total
            };
            proof {
                assert(s * p > 0) by (nonlinear_arith)
                    requires
                        s > 0,
                        p > 0,
                ;
            }
            let m = round_units(s, lo.exponent, Ghost(num));
            proof {
                lemma_nearest_is(Exact::Ratio { num, den: 1 }, m);
            }
            return Self::compose(a.bits >= SIGN, m);
        }
        if big == small {
            return Self::compose(false, 0);
        }
        if big > small {
            let s: u128 = big - small;
            let ghost num = if a.negative() {
                -total
            } else {
                total
            };
            proof {
                assert(s * p > 0) by (nonlinear_arith)
                    requires
                        s > 0,
                        p > 0,
                ;
            }
            let m = round_units(s, lo.exponent, Ghost(num));
            proof {
                lemma_nearest_is(Exact::Ratio { num, den: 1 }, m);
            }
            Self::compose(a.bits >= SIGN, m)
        } else {
            let s: u128 = small - big;
            let ghost num = if b.negative() {
                -total
            } else {
                total
            };
            proof {
                assert(s * p > 0) by (nonlinear_arith)
                    requires
                        s > 0,
                        p > 0,
                ;
            }
            let m = round_units(s, lo.exponent, Ghost(num));
            proof {
                lemma_nearest_is(Exact::Ratio { num, den: 1 }, m);
            }
            Self::compose(b.bits >= SIGN, m)
        }
    }

    pub fn plus(self, rhs: Scalar) -> (r: Scalar)
        ensures
            r == sum(self, rhs),
    {
        if self.is_nan() || rhs.is_nan() {
            return Scalar { bits: QUIET_NAN };
        }
        if !self.is_finite() {
            if !rhs.is_finite() && (self.bits >= SIGN) != (rhs.bits >= SIGN) {
                return Scalar { bits: QUIET_NAN };
            }
            return self;
        }
        if !rhs.is_finite() {
            return rhs;
        }
        let a = split(self.magnitude_bits());
        let b = split(rhs.magnitude_bits());
        if a.exponent >= b.exponent {
            Self::add_ordered(self, rhs, a, b)
        } else {
            Self::add_ordered(rhs, self, b, a)
        }
    }

    pub fn minus(self, rhs: Scalar) -> (r: Scalar)
        ensures
            r == difference(self, rhs),
    {
        self.plus(rhs.negate())
    }

    pub fn times(self, rhs: Scalar) -> (r: Scalar)
        ensures
            r == product(self, rhs),
    {
        if self.is_nan() || rhs.is_nan() {
            return Scalar { bits: QUIET_NAN };
        }
        let ma = self.magnitude_bits();
        let mb = rhs.magnitude_bits();
        let negative = (self.bits >= SIGN) != (rhs.bits >= SIGN);
        if ma == INFINITE || mb == INFINITE {
            if ma == 0 || mb == 0 {
                return Scalar { bits: QUIET_NAN };
            }
            return Self::compose(negative, INFINITE);
        }
        let a = split(ma);
        let b = split(mb);
        proof {
            assert(a.significand * b.significand < 0x100_0000 * 0x100_0000 && a.significand
                * b.significand >= 0) by (nonlinear_arith)
                requires
                    a.significand < 0x100_0000,
                    b.significand < 0x100_0000,
            ;
        }
        let t: u128 = a.significand as u128 * b.significand as u128;
        let e: i32 = a.exponent as i32 + b.exponent as i32 - 149;
        let ghost num = units(self.magnitude()) * units(rhs.magnitude());
        let ghost den = pow2(149) as int;
        proof {
            lemma_product_step(a.significand as int, a.exponent as nat, b.significand as int,
                b.exponent as nat, t as int, e as int);
        }
        let m = round_step(t, false, e, Ghost(Exact::Ratio { num, den }));
        proof {
            lemma_nearest_is(Exact::Ratio { num, den }, m);
        }
        Self::compose(negative, m)
    }

    pub fn over(self, rhs: Scalar) -> (r: Scalar)
        ensures
            r == quotient(self, rhs),
    {
        if self.is_nan() || rhs.is_nan() {
            return Scalar { bits: QUIET_NAN };
        }
        let ma = self.magnitude_bits();
        let mb = rhs.magnitude_bits();
        let negative = (self.bits >= SIGN) != (rhs.bits >= SIGN);
        if (ma == INFINITE && mb == INFINITE) || (ma == 0 && mb == 0) {
            return Scalar { bits: QUIET_NAN };
        }
        if ma == INFINITE || mb == 0 {
            return Self::compose(negative, INFINITE);
        }
        if mb == INFINITE {
            return Self::compose(negative, 0);
        }
        let a = split(ma);
        let b = split(mb);
        let ghost num = units(self.magnitude()) * pow2(149);
        let ghost den = units(rhs.magnitude());
        proof {
            lemma_power_bounds();
        }
        let scaled: u128 = a.significand as u128 * 0x1000_0000_0000_0000u128;
        let t: u128 = scaled / (b.significand as u128);
        let inexact = scaled % (b.significand as u128) != 0;
        let e: i32 = a.exponent as i32 - b.exponent as i32 + 89;
        proof {
            vstd::arithmetic::div_mod::lemma_fundamental_div_mod(
                scaled as int,
                b.significand as int,
            );
            lemma_quotient_step(
                a.significand as int,
                a.exponent as nat,
                b.significand as int,
                b.exponent as nat,
                t as int,
                scaled as int % b.significand as int,
                e as int,
            );
        }
        let m = round_step(t, inexact, e, Ghost(Exact::Ratio { num, den }));
        proof {
            lemma_nearest_is(Exact::Ratio { num, den }, m);
        }
        Self::compose(negative, m)
    }

    pub fn from_u64(n: u64) -> (r: Scalar)
        ensures
            r == of_integer(n as int),
    {
        let ghost num = n * pow2(149);
        proof {
            lemma_pow2_pos(149);
            assert(n * pow2(149) >= 0) by (nonlinear_arith)
                requires
                    n >= 0,
                    pow2(149) > 0,
            ;
        }
        let m = round_units(n as u128, 149, Ghost(num));
        proof {
            lemma_nearest_is(Exact::Ratio { num, den: 1 }, m);
        }
        Self::compose(false, m)
    }

    pub fn from_i32(n: i32) -> (r: Scalar)
        ensures
            r == of_signed(n as int),
    {
        if n < 0 {
            Scalar::from_u64((-(n as i64)) as u64).negate()
        } else {
            Scalar::from_u64(n as u64)
        }
    }

    pub fn sqrt(self) -> (r: Scalar)
        ensures
            r == root(self),
    {
        let ma = self.magnitude_bits();
        if ma == 0 {
            return self;
        }
        if self.is_nan() || self.bits >= SIGN {
            return Scalar { bits: QUIET_NAN };
        }
        if ma == INFINITE {
            return self;
        }
        let a = split(ma);
        let odd: u32 = (a.exponent + 149) % 2;
        let z: u32 = 70 + odd;
        let e: u32 = (a.exponent + 149 - z) / 2;
        let factor = power_of_two(z);
        let ghost square = units(self.magnitude()) * pow2(149);
        proof {
            lemma_root_bounds(a.significand as int, z as nat, factor as int);
        }
        let w: u128 = a.significand as u128 * factor;
        let t = integer_root(w);
        let inexact = t * t != w;
        proof {
            lemma_root_step(
                a.significand as int,
                a.exponent as nat,
                z as nat,
                w as int,
                t as int,
                e as nat,
            );
        }
        let m = round_step(t, inexact, e as i32, Ghost(Exact::Root { square }));
        proof {
            lemma_nearest_is(Exact::Root { square }, m);
        }
        Self::compose(false, m)
    }
}

proof fn lemma_product_step(sa: int, ea: nat, sb: int, eb: nat, t: int, e: int)
    requires
        0 <= sa,
        0 <= sb,
        t == sa * sb,
        e == ea + eb - 149,
    ensures
        (Exact::Ratio { num: (sa * pow2(ea)) * (sb * pow2(eb)), den: pow2(149) as int }).wf(),
        in_step(
            Exact::Ratio { num: (sa * pow2(ea)) * (sb * pow2(eb)), den: pow2(149) as int },
            t,
            false,
            e,
        ),
{
    let pa = pow2(ea) as int;
    let pb = pow2(eb) as int;
    let num = (sa * pa) * (sb * pb);
    let den = pow2(149) as int;
    let up = scale_up(e);
    let down = scale_up(-e);
    lemma_power_bounds();
    lemma_pow2_pos(ea);
    lemma_pow2_pos(eb);
    lemma_pow2_pos(149);
    lemma_pow2_adds(ea, eb);
    if e > 0 {
        lemma_pow2_pos(e as nat);
        lemma_pow2_adds(e as nat, 149);
    } else if e < 0 {
        lemma_pow2_pos((-e) as nat);
        lemma_pow2_adds((ea + eb) as nat, (-e) as nat);
    }
    assert(up * den == (pa * pb) * down);
    assert(t * up * den == num * down) by (nonlinear_arith)
        requires
            t == sa * sb,
            num == (sa * pa) * (sb * pb),
            up * den == (pa * pb) * down,
    {
        assert(t * up * den == t * (up * den));
        assert(num * down == (sa * sb) * ((pa * pb) * down));
    }
    assert((t + 1) * up * den > t * up * den) by (nonlinear_arith)
        requires
            up > 0,
            den > 0,
    {
        assert((t + 1) * up * den == t * up * den + up * den);
        assert(up * den > 0);
    }
    assert(num >= 0 && t >= 0) by (nonlinear_arith)
        requires
            num == (sa * pa) * (sb * pb),
            t == sa * sb,
            sa >= 0,
            sb >= 0,
            pa > 0,
            pb > 0,
    ;
    lemma_ratio_in_step(num, den, t, false, e);
}

proof fn lemma_quotient_step(sa: int, ea: nat, sb: int, eb: nat, t: int, rem: int, e: int)
    requires
        0 <= sa < 0x100_0000,
        0 < sb < 0x100_0000,
        sa * pow2(60) == sb * t + rem,
        0 <= rem < sb,
        e == ea - eb + 89,
    ensures
        (Exact::Ratio { num: (sa * pow2(ea)) * pow2(149), den: sb * pow2(eb) }).wf(),
        in_step(
            Exact::Ratio { num: (sa * pow2(ea)) * pow2(149), den: sb * pow2(eb) },
            t,
            rem != 0,
            e,
        ),
        t < 0x100_0000_0000_0000_0000_0000_0000_0000,
        t >= 0,
        rem != 0 ==> t >= 0x200_0000,
{
    let pa = pow2(ea) as int;
    let pb = pow2(eb) as int;
    let p = pow2(149) as int;
    let q = pow2(60) as int;
    let num = (sa * pa) * p;
    let den = sb * pb;
    let up = scale_up(e);
    let down = scale_up(-e);
    lemma_power_bounds();
    lemma_pow2_pos(ea);
    lemma_pow2_pos(eb);
    lemma_pow2_pos(149);
    lemma_pow2_adds(ea, 149);
    if e > 0 {
        lemma_pow2_pos(e as nat);
        lemma_pow2_adds(e as nat, eb);
        lemma_pow2_adds((e + eb) as nat, 60);
    } else if e < 0 {
        lemma_pow2_pos((-e) as nat);
        lemma_pow2_adds((ea + 149) as nat, (-e) as nat);
        lemma_pow2_adds(eb, 60);
    } else {
        lemma_pow2_adds(eb, 60);
    }
    let common = up * pb;
    assert((pa * p) * down == common * q);
    assert(common > 0) by (nonlinear_arith)
        requires
            up > 0,
            pb > 0,
            common == up * pb,
    ;
    assert(t * up * den == (t * sb) * common) by (nonlinear_arith)
        requires
            den == sb * pb,
            common == up * pb,
    ;
    assert((t + 1) * up * den == ((t + 1) * sb) * common) by (nonlinear_arith)
        requires
            den == sb * pb,
            common == up * pb,
    ;
    assert(num * down == (sa * q) * common) by (nonlinear_arith)
        requires
            num == (sa * pa) * p,
            (pa * p) * down == common * q,
    {
        assert(num * down == sa * ((pa * p) * down));
        assert(sa * (common * q) == (sa * q) * common);
    }
    assert(t * sb == sb * t && (t + 1) * sb == sb * t + sb) by (nonlinear_arith);
    assert(num >= 0 && den > 0) by (nonlinear_arith)
        requires
            num == (sa * pa) * p,
            den == sb * pb,
            sa >= 0,
            sb > 0,
            pa > 0,
            pb > 0,
            p > 0,
    ;
    assert(t >= 0) by (nonlinear_arith)
        requires
            sb * t + rem >= 0,
            0 <= rem < sb,
            sb > 0,
    ;
    assert(t <= sb * t) by (nonlinear_arith)
        requires
            sb >= 1,
            t >= 0,
    ;
    if rem != 0 {
        assert(sa >= 1) by (nonlinear_arith)
            requires
                sa * q == sb * t + rem,
                rem > 0,
                sb > 0,
                t >= 0,
                sa >= 0,
        ;
        assert(t >= 0x200_0000) by (nonlinear_arith)
            requires
                sa * q == sb * t + rem,
                0 <= rem < sb,
                0 < sb < 0x100_0000,
                sa >= 1,
                q == 0x1000_0000_0000_0000,
        ;
        assert((t * sb) * common < (sa * q) * common) by (nonlinear_arith)
            requires
                t * sb < sa * q,
                common > 0,
        ;
    }
    assert((t * sb) * common <= (sa * q) * common) by (nonlinear_arith)
        requires
            t * sb <= sa * q,
            common > 0,
    ;
    assert((sa * q) * common < ((t + 1) * sb) * common) by (nonlinear_arith)
        requires
            sa * q < (t + 1) * sb,
            common > 0,
    ;
    lemma_ratio_in_step(num, den, t, rem != 0, e);
}

/// The integer part of the square root.
fn integer_root(w: u128) -> (t: u128)
    requires
        w < 0x1_0000_0000_0000_0000_0000_0000,
    ensures
        t * t <= w < (t + 1) * (t + 1),
        t < 0x4_0000_0000_0000,
{
    let mut t: u128 = 0;
    let mut b: u128 = 0x2_0000_0000_0000;
    proof {
        vstd::arithmetic::power2::lemma2_to64_rest();
        assert(b == pow2(49));
        assert(0x4_0000_0000_0000 * 0x4_0000_0000_0000 == 0x10_0000_0000_0000_0000_0000_0000int)
            by (nonlinear_arith);
        assert((t + 2 * b) * (t + 2 * b) == 0x4_0000_0000_0000 * 0x4_0000_0000_0000)
            by (nonlinear_arith)
            requires
                t == 0,
                b == 0x2_0000_0000_0000,
        ;
    }
    while b > 0
        invariant
            t * t <= w < (t + 2 * b) * (t + 2 * b) || (b == 0 && t * t <= w < (t + 1) * (t + 1)),
            b <= 0x2_0000_0000_0000,
            b > 0 ==> t + 2 * b <= 0x4_0000_0000_0000,
            t < 0x4_0000_0000_0000,
            b > 0 ==> exists|n: nat| b == #[trigger] pow2(n),
            w < 0x1_0000_0000_0000_0000_0000_0000,
        decreases b,
    {
        let ghost n = choose|n: nat| b == #[trigger] pow2(n);
        let candidate: u128 = t + b;
        proof {
            assert(candidate * candidate <= 0x4_0000_0000_0000 * 0x4_0000_0000_0000
                && candidate * candidate >= 0) by (nonlinear_arith)
                requires
                    0 <= candidate <= 0x4_0000_0000_0000,
            ;
            if n > 0 {
                lemma_pow2_unfold(n);
                assert(b / 2 == pow2((n - 1) as nat));
            } else {
                lemma_power_bounds();
            }
        }
        if candidate * candidate <= w {
            t = candidate;
        }
        b = b / 2;
    }
    t
}

proof fn lemma_root_bounds(sig: int, z: nat, factor: int)
    requires
        0 < sig < 0x100_0000,
        70 <= z <= 71,
        factor == pow2(z),
    ensures
        0 <= sig * factor < 0x1_0000_0000_0000_0000_0000_0000,
        sig * factor >= 0x40_0000_0000_0000_0000,
{
    vstd::arithmetic::power2::lemma2_to64();
    vstd::arithmetic::power2::lemma2_to64_rest();
    lemma_pow2_adds(60, 10);
    lemma_pow2_adds(60, 11);
    assert(pow2(70) == 0x40_0000_0000_0000_0000 && pow2(71) == 0x80_0000_0000_0000_0000);
    assert(sig * factor >= factor && sig * factor < 0x100_0000 * factor) by (nonlinear_arith)
        requires
            1 <= sig < 0x100_0000,
            factor > 0,
    ;
}

proof fn lemma_root_step(sig: int, exponent: nat, z: nat, w: int, t: int, e: nat)
    requires
        0 < sig,
        exponent <= 253,
        z == 70 + (exponent + 149) % 2,
        2 * e + z == exponent + 149,
        w == sig * pow2(z),
        w >= 0x40_0000_0000_0000_0000,
        0 <= t,
        t * t <= w < (t + 1) * (t + 1),
    ensures
        (Exact::Root { square: (sig * pow2(exponent)) * pow2(149) }).wf(),
        in_step(
            Exact::Root { square: (sig * pow2(exponent)) * pow2(149) },
            t,
            t * t != w,
            e as int,
        ),
        t >= 0x200_0000,
{
    let square = (sig * pow2(exponent)) * pow2(149);
    let x = Exact::Root { square };
    let p = pow2(e) as int;
    lemma_power_bounds();
    lemma_pow2_pos(e);
    lemma_pow2_adds(e, e);
    lemma_pow2_adds(z, 2 * e);
    lemma_pow2_adds(exponent, 149);
    assert(square == w * (p * p)) by {
        let pe = pow2(exponent) as int;
        let ph = pow2(149) as int;
        let pz = pow2(z) as int;
        assert(square == sig * (pe * ph)) by (nonlinear_arith)
            requires
                square == (sig * pe) * ph,
        ;
        assert(w * (p * p) == sig * (pz * (p * p))) by (nonlinear_arith)
            requires
                w == sig * pz,
        ;
        assert(e + e == 2 * e);
    }
    assert(t >= 0x200_0000) by (nonlinear_arith)
        requires
            w < (t + 1) * (t + 1),
            w >= 0x40_0000_0000_0000_0000,
            t >= 0,
    ;
    assert(scale_up(e as int) == p);
    let low = 2 * t * p;
    let high = 2 * (t + 1) * p;
    assert(low * low == 4 * (t * t) * (p * p) && high * high == 4 * ((t + 1) * (t + 1)) * (p * p)
        && low >= 0 && high >= 0 && p * p > 0) by (nonlinear_arith)
        requires
            low == 2 * t * p,
            high == 2 * (t + 1) * p,
            t >= 0,
            p > 0,
    ;
    assert(4 * square == 4 * w * (p * p)) by (nonlinear_arith)
        requires
            square == w * (p * p),
    ;
    assert(low * low <= 4 * square && 4 * square < high * high && (t * t < w ==> low * low < 4
        * square) && (t * t == w ==> low * low == 4 * square)) by (nonlinear_arith)
        requires
            low * low == 4 * (t * t) * (p * p),
            high * high == 4 * ((t + 1) * (t + 1)) * (p * p),
            4 * square == 4 * w * (p * p),
            t * t <= w < (t + 1) * (t + 1),
            p * p > 0,
    ;
    assert(square >= 0) by (nonlinear_arith)
        requires
            square == w * (p * p),
            w >= 0,
            p * p > 0,
    ;
    assert forall|c: int| c >= 0 && c * 1 <= low implies #[trigger] x.twice_at_least(c) by {
        lemma_squares(c, low);
    }
    assert forall|c: int| c >= 0 && c * 1 >= high implies !#[trigger] x.twice_at_least(c) by {
        lemma_squares(high, c);
    }
    assert forall|c: int| c >= 0 && c * 1 >= high implies #[trigger] x.twice_at_most(c) by {
        lemma_squares(high, c);
    }
    if t * t != w {
        assert forall|c: int| c >= 0 && c * 1 <= low implies !#[trigger] x.twice_at_most(c) by {
            lemma_squares(c, low);
        }
    } else {
        assert forall|c: int| c >= 0 && c * 1 >= low implies #[trigger] x.twice_at_most(c) by {
            lemma_squares(low, c);
        }
        assert forall|c: int| c >= 0 && c * 1 > low implies !#[trigger] x.twice_at_least(c) by {
            lemma_squares(low, c);
        }
        assert forall|c: int| c >= 0 && c * 1 < low implies !#[trigger] x.twice_at_most(c) by {
            lemma_squares(c, low);
        }
    }
}

proof fn lemma_squares(a: int, b: int)
    requires
        0 <= a <= b,
    ensures
        a * a <= b * b,
        a < b ==> a * a < b * b,
{
    assert(a * a <= b * b && (a < b ==> a * a < b * b)) by (nonlinear_arith)
        requires
            0 <= a <= b,
    ;
}

} // verus!
