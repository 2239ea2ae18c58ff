//! Rounding exact nonnegative quantities to the magnitude of a single-precision number.
//!
//! A magnitude is the bit pattern of a number without its sign bit. Magnitudes are counted
//! in units of the smallest subnormal number, `2^-149`, so that the value of every finite
//! magnitude is an integer, and consecutive magnitudes are consecutive representable numbers.

use vstd::arithmetic::power2::{
    lemma_pow2_adds, lemma_pow2_pos, lemma_pow2_strictly_increases, lemma_pow2_unfold, pow2,
};
use vstd::prelude::*;

verus! {

/// The magnitude of infinity.
pub const INFINITE: u32 = 0x7f80_0000;

/// The number of magnitudes that share one exponent.
pub const BINADE: u32 = 0x80_0000;

/// The value of a magnitude in units of `2^-149`. Infinity counts as the number that would
/// follow the largest finite one.
pub open spec fn units(m: int) -> int {
    let exponent = m / 0x80_0000;
    let fraction = m % 0x80_0000;
    if exponent == 0 {
        fraction
    } else {
        (fraction + 0x80_0000) * pow2((exponent - 1) as nat)
    }
}

/// An exact nonnegative quantity: a ratio of integers, or the square root of an integer.
pub ghost enum Exact {
    Ratio { num: int, den: int },
    Root { square: int },
}

impl Exact {
    pub open spec fn wf(self) -> bool {
        match self {
            Exact::Ratio { num, den } => num >= 0 && den > 0,
            Exact::Root { square } => square >= 0,
        }
    }

    /// Twice the quantity is at least `c`.
    pub open spec fn twice_at_least(self, c: int) -> bool {
        match self {
            Exact::Ratio { num, den } => c * den <= 2 * num,
            Exact::Root { square } => c * c <= 4 * square,
        }
    }

    /// Twice the quantity is at most `c`.
    pub open spec fn twice_at_most(self, c: int) -> bool {
        match self {
            Exact::Ratio { num, den } => 2 * num <= c * den,
            Exact::Root { square } => 4 * square <= c * c,
        }
    }
}

/// The magnitude `m` is the one nearest to `x`; of two that are equally near it is the even
/// one. Beyond the largest finite magnitude the nearest one is infinity.
pub open spec fn rounds_to(x: Exact, m: int) -> bool {
    &&& 0 <= m <= INFINITE
    &&& m < INFINITE ==> {
        &&& x.twice_at_most(units(m) + units(m + 1))
        &&& m % 2 == 1 ==> !x.twice_at_least(units(m) + units(m + 1))
    }
    &&& m > 0 ==> {
        &&& x.twice_at_least(units(m - 1) + units(m))
        &&& m % 2 == 1 ==> !x.twice_at_most(units(m - 1) + units(m))
    }
}

/// The magnitude nearest to `x`.
pub open spec fn nearest(x: Exact) -> u32 {
    choose|m: u32| rounds_to(x, m as int)
}

/// The value of the magnitude at offset `q` of the binade scaled by `2^k`.
pub proof fn lemma_units_in_binade(k: nat, q: int)
    requires
        0 <= q <= 0x100_0000,
        k > 0 ==> q >= 0x80_0000,
    ensures
        units(k * 0x80_0000 + q) == q * pow2(k),
{
    let m = k * 0x80_0000 + q;
    lemma_pow2_pos(k);
    assert(pow2(0) == 1) by {
        vstd::arithmetic::power2::lemma2_to64();
    }
    if q < 0x80_0000 {
        assert(m / 0x80_0000 == 0);
        assert(m % 0x80_0000 == q);
    } else if q < 0x100_0000 {
        assert(m / 0x80_0000 == k + 1);
        assert(m % 0x80_0000 == q - 0x80_0000);
    } else {
        assert(m / 0x80_0000 == k + 2);
        assert(m % 0x80_0000 == 0);
        lemma_pow2_unfold((k + 1) as nat);
        assert(0x80_0000 * pow2((k + 1) as nat) == 0x100_0000 * pow2(k)) by (nonlinear_arith)
            requires
                pow2((k + 1) as nat) == 2 * pow2(k),
        ;
    }
}

/// Consecutive magnitudes have increasing values, at least one unit apart.
pub proof fn lemma_units_step(m: int)
    requires
        0 <= m,
    ensures
        units(m) < units(m + 1),
{
    let exponent = m / 0x80_0000;
    let fraction = m % 0x80_0000;
    if exponent == 0 {
        lemma_units_in_binade(0, fraction);
        lemma_units_in_binade(0, fraction + 1);
        assert(m == fraction);
        assert(pow2(0) == 1) by {
            vstd::arithmetic::power2::lemma2_to64();
        }
    } else {
        let k = (exponent - 1) as nat;
        let q = fraction + 0x80_0000;
        lemma_units_in_binade(k, q);
        lemma_units_in_binade(k, q + 1);
        assert(m == k * 0x80_0000 + q);
        lemma_pow2_pos(k);
        assert(q * pow2(k) < (q + 1) * pow2(k)) by (nonlinear_arith)
            requires
                pow2(k) > 0,
        ;
    }
}

/// A greater magnitude has a greater value.
pub proof fn lemma_units_increasing(a: int, b: int)
    requires
        0 <= a < b,
    ensures
        units(a) < units(b),
        0 <= units(a),
    decreases b,
{
    if b == a + 1 {
        lemma_units_step(a);
    } else {
        lemma_units_increasing(a, b - 1);
        lemma_units_step(b - 1);
    }
    if a == 0 {
        lemma_units_in_binade(0, 0);
    } else {
        lemma_units_increasing(0, a);
    }
}

/// Bounds on twice the same quantity are consistent.
proof fn lemma_bounds_consistent(x: Exact, low: int, high: int)
    requires
        x.wf(),
        0 <= low,
        0 <= high,
        x.twice_at_most(low),
        x.twice_at_least(high),
    ensures
        high <= low,
{
    match x {
        Exact::Ratio { num, den } => {
            if low < high {
                assert(low * den < high * den) by (nonlinear_arith)
                    requires
                        low < high,
                        den > 0,
                ;
            }
        },
        Exact::Root { square } => {
            if low < high {
                assert(low * low < high * high) by (nonlinear_arith)
                    requires
                        0 <= low < high,
                ;
            }
        },
    }
}

/// At most one magnitude is nearest.
pub proof fn lemma_rounds_unique(x: Exact, a: int, b: int)
    requires
        x.wf(),
        rounds_to(x, a),
        rounds_to(x, b),
    ensures
        a == b,
{
    lemma_rounds_not_above(x, a, b);
    lemma_rounds_not_above(x, b, a);
}

proof fn lemma_rounds_not_above(x: Exact, a: int, b: int)
    requires
        x.wf(),
        rounds_to(x, a),
        rounds_to(x, b),
    ensures
        b <= a,
{
    if a < b {
        let low = units(a) + units(a + 1);
        let high = units(b - 1) + units(b);
        lemma_units_increasing(a, a + 1);
        if a < b - 1 {
            lemma_units_increasing(a, b - 1);
            lemma_units_increasing(a + 1, b);
        }
        lemma_bounds_consistent(x, low, high);
        assert(a == b - 1);
    }
}

/// What a rounding to a magnitude proves about [`nearest`].
pub proof fn lemma_nearest_is(x: Exact, m: u32)
    requires
        x.wf(),
        rounds_to(x, m as int),
    ensures
        nearest(x) == m,
{
    lemma_rounds_unique(x, nearest(x) as int, m as int);
}

/// Rounding by comparing with the midpoint of a binade's step: the magnitude at `q` when the
/// quantity lies below the midpoint, or on it and `q` is even, and the next one otherwise.
pub proof fn lemma_round_in_binade(x: Exact, k: nat, q: int, up: bool)
    requires
        x.wf(),
        k <= 253,
        0 <= q < 0x100_0000,
        k > 0 ==> q >= 0x80_0000,
        x.twice_at_least(2 * (q * pow2(k))),
        x.twice_at_most(2 * ((q + 1) * pow2(k))),
        up ==> x.twice_at_least((2 * q + 1) * pow2(k)) && !(x.twice_at_most(
            (2 * q + 1) * pow2(k),
        ) && q % 2 == 0),
        !up ==> x.twice_at_most((2 * q + 1) * pow2(k)) && !(x.twice_at_least(
            (2 * q + 1) * pow2(k),
        ) && q % 2 == 1),
    ensures
        rounds_to(x, k * 0x80_0000 + q + if up { 1int } else { 0 }),
{
    let m = k * 0x80_0000 + q;
    lemma_units_in_binade(k, q);
    lemma_units_in_binade(k, q + 1);
    let p = pow2(k) as int;
    assert(q * p + (q + 1) * p == (2 * q + 1) * p) by (nonlinear_arith);
    assert(units(m) + units(m + 1) == (2 * q + 1) * p);
    assert(m % 2 == q % 2) by {
        assert(m == 2 * (k * 0x40_0000) + q);
    }
    assert(0 <= units(m)) by {
        lemma_units_increasing(m, m + 1);
    }
    if up {
        lemma_units_increasing(m + 1, m + 2);
        lemma_at_most_weakens(x, 2 * units(m + 1), units(m + 1) + units(m + 2));
        if (m + 1) % 2 == 1 && m + 1 < INFINITE {
            if x.twice_at_least(units(m + 1) + units(m + 2)) {
                lemma_bounds_consistent(x, 2 * units(m + 1), units(m + 1) + units(m + 2));
            }
        }
    } else {
        if m > 0 {
            lemma_units_increasing(m - 1, m);
            lemma_at_least_weakens(x, 2 * units(m), units(m - 1) + units(m));
            if m % 2 == 1 && x.twice_at_most(units(m - 1) + units(m)) {
                lemma_bounds_consistent(x, units(m - 1) + units(m), 2 * units(m));
            }
        }
    }
}

proof fn lemma_at_most_weakens(x: Exact, c: int, d: int)
    requires
        x.wf(),
        x.twice_at_most(c),
        0 <= c <= d,
    ensures
        x.twice_at_most(d),
{
    match x {
        Exact::Ratio { num, den } => {
            assert(c * den <= d * den) by (nonlinear_arith)
                requires
                    c <= d,
                    den > 0,
            ;
        },
        Exact::Root { square } => {
            assert(c * c <= d * d) by (nonlinear_arith)
                requires
                    0 <= c <= d,
            ;
        },
    }
}

proof fn lemma_at_least_weakens(x: Exact, c: int, d: int)
    requires
        x.wf(),
        x.twice_at_least(c),
        0 <= d <= c,
    ensures
        x.twice_at_least(d),
{
    match x {
        Exact::Ratio { num, den } => {
            assert(d * den <= c * den) by (nonlinear_arith)
                requires
                    d <= c,
                    den > 0,
            ;
        },
        Exact::Root { square } => {
            assert(d * d <= c * c) by (nonlinear_arith)
                requires
                    0 <= d <= c,
            ;
        },
    }
}

/// A quantity that reaches the value of infinity rounds to infinity.
pub proof fn lemma_round_overflow(x: Exact)
    requires
        x.wf(),
        x.twice_at_least((2 * (0x80_0000 * pow2(254))) as int),
    ensures
        rounds_to(x, INFINITE as int),
{
    lemma_units_in_binade(254, 0x80_0000);
    assert(254 * 0x80_0000 + 0x80_0000 == INFINITE);
    lemma_units_increasing(INFINITE - 1, INFINITE as int);
    lemma_at_least_weakens(
        x,
        2 * units(INFINITE as int),
        units(INFINITE - 1) + units(INFINITE as int),
    );
}

/// The number of units in a scale factor `2^e` with `e` at least zero.
pub open spec fn scale_up(e: int) -> int {
    if e > 0 {
        pow2(e as nat) as int
    } else {
        1
    }
}

/// The quantity `x` lies in the step from `t * 2^e` to `(t + 1) * 2^e`: exactly at its start,
/// or strictly inside it when `inexact` is set.
pub open spec fn in_step(x: Exact, t: int, inexact: bool, e: int) -> bool {
    let up = scale_up(e);
    let down = scale_up(-e);
    &&& forall|c: int|
        c >= 0 && c * down <= 2 * t * up ==> #[trigger] x.twice_at_least(c)
    &&& forall|c: int|
        c >= 0 && c * down >= 2 * (t + 1) * up ==> !#[trigger] x.twice_at_least(c)
    &&& forall|c: int|
        c >= 0 && c * down >= 2 * (t + 1) * up ==> #[trigger] x.twice_at_most(c)
    &&& if inexact {
        forall|c: int| c >= 0 && c * down <= 2 * t * up ==> !#[trigger] x.twice_at_most(c)
    } else {
        &&& forall|c: int| c >= 0 && c * down >= 2 * t * up ==> #[trigger] x.twice_at_most(c)
        &&& forall|c: int| c >= 0 && c * down > 2 * t * up ==> !#[trigger] x.twice_at_least(c)
        &&& forall|c: int| c >= 0 && c * down < 2 * t * up ==> !#[trigger] x.twice_at_most(c)
    }
}

/// A ratio lies in a step when it does so after clearing denominators.
pub proof fn lemma_ratio_in_step(num: int, den: int, t: int, inexact: bool, e: int)
    requires
        0 <= num,
        0 < den,
        0 <= t,
        t * scale_up(e) * den <= num * scale_up(-e),
        num * scale_up(-e) < (t + 1) * scale_up(e) * den,
        inexact <==> t * scale_up(e) * den != num * scale_up(-e),
    ensures
        in_step(Exact::Ratio { num, den }, t, inexact, e),
{
    let x = Exact::Ratio { num, den };
    let up = scale_up(e);
    let down = scale_up(-e);
    if e > 0 {
        lemma_pow2_pos(e as nat);
    }
    if e < 0 {
        lemma_pow2_pos((-e) as nat);
    }
    let low = t * up * den;
    let high = (t + 1) * up * den;
    let mid = num * down;
    assert forall|c: int| c >= 0 && c * down <= 2 * t * up implies #[trigger] x.twice_at_least(
        c,
    ) && (inexact ==> !x.twice_at_most(c)) by {
        assert(c * den <= 2 * num && (low < mid ==> c * den < 2 * num)) by (nonlinear_arith)
            requires
                c * down <= 2 * t * up,
                low == t * up * den,
                mid == num * down,
                low <= mid,
                den > 0,
                down > 0,
        {
            assert((c * down) * den <= (2 * t * up) * den);
            assert((2 * t * up) * den == 2 * low);
            assert((c * down) * den == (c * den) * down);
            assert((c * den) * down <= (2 * num) * down);
        }
    }
    assert forall|c: int| c >= 0 && c * down >= 2 * (t + 1) * up implies !(#[trigger] x.twice_at_least(
        c,
    )) && x.twice_at_most(c) by {
        assert(c * den > 2 * num) by (nonlinear_arith)
            requires
                c * down >= 2 * (t + 1) * up,
                high == (t + 1) * up * den,
                mid == num * down,
                mid < high,
                den > 0,
                down > 0,
        {
            assert((c * down) * den >= (2 * (t + 1) * up) * den);
            assert((2 * (t + 1) * up) * den == 2 * high);
            assert((c * down) * den == (c * den) * down);
            assert((c * den) * down > (2 * num) * down);
        }
    }
    assert forall|c: int| c >= 0 && c * down >= 2 * (t + 1) * up implies #[trigger] x.twice_at_most(
        c,
    ) by {
        assert(!x.twice_at_least(c));
    }
    assert forall|c: int|
        inexact && c >= 0 && c * down <= 2 * t * up implies !#[trigger] x.twice_at_most(c) by {
        assert(x.twice_at_least(c));
    }
    if !inexact {
        assert forall|c: int| c >= 0 && c * down >= 2 * t * up implies #[trigger] x.twice_at_most(
            c,
        ) by {
            assert(c * den >= 2 * num) by (nonlinear_arith)
                requires
                    c * down >= 2 * t * up,
                    t * up * den == num * down,
                    den > 0,
                    down > 0,
            {
                assert((c * down) * den >= (2 * t * up) * den);
                assert((2 * t * up) * den == 2 * (t * up * den));
                assert((c * down) * den == (c * den) * down);
                assert((c * den) * down >= (2 * num) * down);
            }
        }
        assert forall|c: int|
            c >= 0 && c * down > 2 * t * up implies !#[trigger] x.twice_at_least(c) by {
            assert(c * den > 2 * num) by (nonlinear_arith)
                requires
                    c * down > 2 * t * up,
                    t * up * den == num * down,
                    den > 0,
                    down > 0,
            {
                assert((c * down) * den > (2 * t * up) * den);
                assert((2 * t * up) * den == 2 * (t * up * den));
                assert((c * down) * den == (c * den) * down);
                assert((c * den) * down > (2 * num) * down);
            }
        }
        assert forall|c: int|
            c >= 0 && c * down < 2 * t * up implies !#[trigger] x.twice_at_most(c) by {
            assert(c * den < 2 * num) by (nonlinear_arith)
                requires
                    c * down < 2 * t * up,
                    t * up * den == num * down,
                    den > 0,
                    down > 0,
            {
                assert((c * down) * den < (2 * t * up) * den);
                assert((2 * t * up) * den == 2 * (t * up * den));
                assert((c * down) * den == (c * den) * down);
                assert((c * den) * down < (2 * num) * down);
            }
        }
    }
}

/// The power of two with exponent `n`.
pub fn power_of_two(n: u32) -> (r: u128)
    requires
        n <= 127,
    ensures
        r == pow2(n as nat),
{
    let mut r: u128 = 1;
    let mut i: u32 = 0;
    assert(pow2(0) == 1) by {
        vstd::arithmetic::power2::lemma2_to64();
    }
    while i < n
        invariant
            i <= n <= 127,
            r == pow2(i as nat),
        decreases n - i,
    {
        proof {
            lemma_pow2_unfold((i + 1) as nat);
            lemma_pow2_127((i + 1) as nat);
        }
        r = r * 2;
        i = i + 1;
    }
    r
}

proof fn lemma_pow2_127(n: nat)
    requires
        n <= 127,
    ensures
        pow2(n) <= 0x8000_0000_0000_0000_0000_0000_0000_0000,
{
    assert(pow2(127) == 0x8000_0000_0000_0000_0000_0000_0000_0000) by {
        vstd::arithmetic::power2::lemma2_to64();
        vstd::arithmetic::power2::lemma2_to64_rest();
        lemma_pow2_adds(64, 63);
        assert(pow2(64) == 0x1_0000_0000_0000_0000);
        assert(pow2(63) == 0x8000_0000_0000_0000);
    }
    if n < 127 {
        lemma_pow2_strictly_increases(n, 127);
    }
}

/// The number of binary digits of `t`.
fn bit_length(t: u128) -> (l: u32)
    requires
        0 < t < 0x100_0000_0000_0000_0000_0000_0000_0000,
    ensures
        1 <= l <= 120,
        pow2((l - 1) as nat) <= t < pow2(l as nat),
{
    let mut l: u32 = 0;
    let mut p: u128 = 1;
    assert(pow2(0) == 1 && pow2(120) == 0x100_0000_0000_0000_0000_0000_0000_0000) by {
        vstd::arithmetic::power2::lemma2_to64();
        lemma_pow2_adds(60, 60);
        vstd::arithmetic::power2::lemma2_to64_rest();
    }
    while p <= t
        invariant
            l <= 120,
            p == pow2(l as nat),
            l > 0 ==> pow2((l - 1) as nat) <= t,
            t < 0x100_0000_0000_0000_0000_0000_0000_0000,
            pow2(120) == 0x100_0000_0000_0000_0000_0000_0000_0000,
        decreases 121 - l,
    {
        proof {
            lemma_pow2_unfold((l + 1) as nat);
        }
        l = l + 1;
        p = p * 2;
    }
    assert(pow2(0) == 1) by {
        vstd::arithmetic::power2::lemma2_to64();
    }
    l
}

/// A threshold in units of a binade, compared through the scale factors.
proof fn lemma_threshold(a: int, k: nat, e: int)
    requires
        k >= e,
    ensures
        (a * pow2(k)) * scale_up(-e) == a * (pow2((k - e) as nat) * scale_up(e)),
        pow2(k) * scale_up(-e) == pow2((k - e) as nat) * scale_up(e),
{
    if e > 0 {
        lemma_pow2_adds((k - e) as nat, e as nat);
    } else if e < 0 {
        lemma_pow2_adds(k, (-e) as nat);
    }
    let p = pow2(k) as int;
    let d = scale_up(-e);
    let v = pow2((k - e) as nat) * scale_up(e);
    assert((a * p) * d == a * v) by (nonlinear_arith)
        requires
            p * d == v,
    ;
}

/// Rounds a quantity that is known up to a step of `2^e`.
pub fn round_step(t: u128, inexact: bool, e: i32, Ghost(x): Ghost<Exact>) -> (m: u32)
    requires
        x.wf(),
        t < 0x100_0000_0000_0000_0000_0000_0000_0000,
        -700 <= e <= 700,
        inexact ==> t >= 0x200_0000,
        in_step(x, t as int, inexact, e as int),
    ensures
        rounds_to(x, m as int),
{
    let ghost up = scale_up(e as int);
    let ghost down = scale_up(-(e as int));
    proof {
        if e > 0 {
            lemma_pow2_pos(e as nat);
        }
        if e < 0 {
            lemma_pow2_pos((-e) as nat);
        }
        lemma_units_in_binade(0, 0);
        lemma_units_in_binade(0, 1);
        vstd::arithmetic::power2::lemma2_to64();
    }
    if t == 0 {
        assert(x.twice_at_most(1)) by {
            assert(2 * t * up == 0) by (nonlinear_arith)
                requires
                    t == 0,
            ;
            assert(1 * down >= 2 * t * up);
        }
        return 0;
    }
    let l = bit_length(t);
    let k0: i32 = e + l as i32 - 24;
    let k: i32 = if k0 > 0 {
        k0
    } else {
        0
    };
    if k > 253 {
        proof {
            lemma_overflow_bound(x, t as int, inexact, e as int, l as nat);
            lemma_round_overflow(x);
        }
        return INFINITE;
    }
    if k <= e {
        let factor = power_of_two((e - k) as u32);
        proof {
            lemma_exact_bounds(t as int, e as nat, k as nat, l as nat, factor as int);
        }
        let q: u128 = t * factor;
        proof {
            let p = pow2(k as nat) as int;
            assert(q * p == t * up) by {
                if e > 0 {
                    lemma_pow2_adds((e - k) as nat, k as nat);
                }
                assert((t * factor) * p == t * (factor * p)) by (nonlinear_arith);
            }
            lemma_pow2_pos(k as nat);
            let c = (2 * q + 1) * p;
            assert(c == 2 * (q * p) + p && c >= 0 && 2 * ((q + 1) * p) == 2 * (q * p) + 2 * p && (q
                + 1) * p >= 0 && q * p >= 0) by (nonlinear_arith)
                requires
                    c == (2 * q + 1) * p,
                    p > 0,
                    q >= 0,
            ;
            assert(c * down == c && 2 * t * up == 2 * (t * up)) by (nonlinear_arith)
                requires
                    down == 1,
            ;
            assert((2 * (q * p)) * down == 2 * (q * p)) by (nonlinear_arith)
                requires
                    down == 1,
            ;
            assert((2 * ((q + 1) * p)) * down == 2 * ((q + 1) * p)) by (nonlinear_arith)
                requires
                    down == 1,
            ;
            lemma_round_in_binade(x, k as nat, q as int, false);
        }
        return (k as u32) * BINADE + q as u32;
    }
    let shift: u32 = (k - e) as u32;
    if shift > l {
        proof {
            lemma_pow2_unfold((l + 1) as nat);
            if l + 1 < shift {
                lemma_pow2_strictly_increases((l + 1) as nat, shift as nat);
            }
            assert(down == pow2(shift as nat));
            assert(x.twice_at_most(1)) by {
                assert(1 * down >= 2 * (t + 1) * up) by (nonlinear_arith)
                    requires
                        up == 1,
                        down >= 2 * (t + 1),
                ;
            }
        }
        return 0;
    }
    let step = power_of_two(shift);
    let half = power_of_two(shift - 1);
    proof {
        lemma_pow2_unfold(shift as nat);
        lemma_pow2_pos(shift as nat);
    }
    let q: u128 = t / step;
    let r: u128 = t % step;
    proof {
        vstd::arithmetic::div_mod::lemma_fundamental_div_mod(t as int, step as int);
        lemma_quotient_bounds(
            t as int,
            l as nat,
            shift as nat,
            q as int,
            r as int,
            step as int,
            k > 0,
        );
    }
    let round_up = r > half || (r == half && (inexact || q % 2 == 1));
    proof {
        let p = pow2(k as nat) as int;
        lemma_pow2_pos(k as nat);
        let mid = 2 * q + 1;
        lemma_threshold(mid, k as nat, e as int);
        lemma_threshold(2 * q, k as nat, e as int);
        lemma_threshold(2 * (q + 1), k as nat, e as int);
        assert(step * up > 0) by (nonlinear_arith)
            requires
                step > 0,
                up > 0,
        ;
        assert(2 * q * (step * up) == 2 * (q * step) * up) by (nonlinear_arith);
        assert(2 * (q + 1) * (step * up) == 2 * (q * step + step) * up) by (nonlinear_arith);
        assert(mid * (step * up) == (2 * (q * step) + step) * up) by (nonlinear_arith)
            requires
                mid == 2 * q + 1,
        ;
        assert(q * step == t - r) by (nonlinear_arith)
            requires
                t == step * q + r,
        ;
        assert(2 * (q * p) == (2 * q) * p && 2 * ((q + 1) * p) == (2 * (q + 1)) * p) by (nonlinear_arith);
        assert(mid * p >= 0 && 2 * (q * p) >= 0 && 2 * ((q + 1) * p) >= 0) by (nonlinear_arith)
            requires
                p > 0,
                q >= 0,
                mid == 2 * q + 1,
        ;
        lemma_scaled_order(2 * (t - r), 2 * t as int, up);
        lemma_scaled_order(2 * (t + 1), 2 * (t - r + step), up);
        lemma_scaled_order(2 * (t - r) + step, 2 * t as int, up);
        lemma_scaled_order(2 * t as int, 2 * (t - r) + step, up);
        lemma_scaled_order(2 * (t + 1), 2 * (t - r) + step, up);
        lemma_round_in_binade(x, k as nat, q as int, round_up);
    }
    (k as u32) * BINADE + q as u32 + if round_up {
        1
    } else {
        0
    }
}

proof fn lemma_scaled_order(a: int, b: int, up: int)
    requires
        up > 0,
    ensures
        a <= b ==> a * up <= b * up,
        a < b ==> a * up < b * up,
{
    if a < b {
        assert(a * up < b * up) by (nonlinear_arith)
            requires
                a < b,
                up > 0,
        ;
    }
}

proof fn lemma_overflow_bound(x: Exact, t: int, inexact: bool, e: int, l: nat)
    requires
        in_step(x, t, inexact, e),
        1 <= l <= 120,
        pow2((l - 1) as nat) <= t,
        e + l - 24 > 253,
    ensures
        x.twice_at_least((2 * (0x80_0000 * pow2(254))) as int),
{
    let c = (2 * (0x80_0000 * pow2(254))) as int;
    lemma_pow2_adds((l - 1) as nat, e as nat);
    assert(pow2(23) == 0x80_0000) by {
        vstd::arithmetic::power2::lemma2_to64();
    }
    lemma_pow2_adds(23, 254);
    let total = (l - 1 + e) as nat;
    if 277 < total {
        lemma_pow2_strictly_increases(277, total);
    }
    let p = pow2(e as nat) as int;
    lemma_pow2_pos(e as nat);
    assert(t * p >= pow2((l - 1) as nat) * p) by (nonlinear_arith)
        requires
            t >= pow2((l - 1) as nat),
            p > 0,
    ;
    assert(2 * t * p == 2 * (t * p)) by (nonlinear_arith);
    assert(c * 1 <= 2 * t * scale_up(e));
}

proof fn lemma_exact_bounds(t: int, e: nat, k: nat, l: nat, factor: int)
    requires
        0 < t,
        1 <= l <= 120,
        pow2((l - 1) as nat) <= t < pow2(l),
        k <= e,
        k >= e + l - 24,
        k > 0 ==> k == e + l - 24,
        factor == pow2((e - k) as nat),
    ensures
        t * factor < 0x100_0000,
        t * factor >= 0,
        k > 0 ==> t * factor >= 0x80_0000,
{
    assert(pow2(24) == 0x100_0000 && pow2(23) == 0x80_0000) by {
        vstd::arithmetic::power2::lemma2_to64();
    }
    let d = (e - k) as nat;
    lemma_pow2_pos(d);
    lemma_pow2_adds(l, d);
    assert(t * factor < pow2(l) * factor && t * factor >= 0) by (nonlinear_arith)
        requires
            0 < t < pow2(l),
            factor > 0,
    ;
    if l + d < 24 {
        lemma_pow2_strictly_increases(l + d, 24);
    }
    if k > 0 {
        lemma_pow2_adds((l - 1) as nat, d);
        assert(t * factor >= pow2((l - 1) as nat) * factor) by (nonlinear_arith)
            requires
                t >= pow2((l - 1) as nat),
                factor > 0,
        ;
    }
}

proof fn lemma_quotient_bounds(t: int, l: nat, shift: nat, q: int, r: int, step: int, full: bool)
    requires
        0 < t,
        1 <= l <= 120,
        pow2((l - 1) as nat) <= t < pow2(l),
        step == pow2(shift),
        t == step * q + r,
        0 <= r < step,
        shift + 24 >= l,
        full ==> shift + 24 == l,
    ensures
        0 <= q < 0x100_0000,
        full ==> q >= 0x80_0000,
{
    assert(pow2(24) == 0x100_0000 && pow2(23) == 0x80_0000) by {
        vstd::arithmetic::power2::lemma2_to64();
    }
    lemma_pow2_pos(shift);
    lemma_pow2_adds(shift, 24);
    if l < shift + 24 {
        lemma_pow2_strictly_increases(l, shift + 24);
    }
    assert(q < 0x100_0000) by (nonlinear_arith)
        requires
            t == step * q + r,
            0 <= r < step,
            t < step * 0x100_0000,
            step > 0,
    ;
    assert(q >= 0) by (nonlinear_arith)
        requires
            t == step * q + r,
            0 <= r < step,
            t > 0,
            step > 0,
    ;
    if full {
        lemma_pow2_adds(shift, 23);
        assert(q >= 0x80_0000) by (nonlinear_arith)
            requires
                t == step * q + r,
                0 <= r < step,
                t >= step * 0x80_0000,
                step > 0,
        ;
    }
}

} // verus!
