//! Double-precision arithmetic on the numbers that the sync decision meets:
//! zero and positive numbers that are neither tiny nor huge. The results are
//! those of the IEEE 754 operations, to the last bit.

use vstd::arithmetic::div_mod::*;
use vstd::arithmetic::mul::*;
use vstd::arithmetic::power2::*;
use vstd::prelude::*;

verus! {

/// A double: `significand * 2^(exponent - 1075)`. A double that is not zero has
/// a significand of exactly 53 bits.
#[derive(Clone, Copy, Debug)]
pub struct Binary64 {
    pub significand: u64,
    pub exponent: u64,
}

impl Binary64 {
    /// The number in units of `2^-1075`.
    pub open spec fn units(self) -> int {
        self.significand * pow2(self.exponent as nat)
    }

    /// Zero, or a number whose significand has 53 bits.
    pub open spec fn is_normal(self) -> bool {
        ||| self == zero()
        ||| 0x10_0000_0000_0000 <= self.significand < 0x20_0000_0000_0000
    }
}

pub open spec fn zero() -> Binary64 {
    Binary64 { significand: 0, exponent: 0 }
}

/// How many units of `2^-1075` make one.
pub open spec fn one_in_units() -> int {
    pow2(1075) as int
}

/// The integer nearest to `num / den`, and the even one of two that are
/// equally near.
pub open spec fn half_even(num: int, den: int) -> int {
    let below = num / den;
    let twice_rest = 2 * (num % den);
    if twice_rest < den || (twice_rest == den && below % 2 == 0) {
        below
    } else {
        below + 1
    }
}

/// `num / den`, in steps of `2^(exponent - 1075)`, has an integer part of 53
/// bits.
pub open spec fn has_exponent(num: int, den: int, exponent: nat) -> bool {
    0x10_0000_0000_0000 * (den * pow2(exponent)) <= num * one_in_units()
        < 0x20_0000_0000_0000 * (den * pow2(exponent))
}

/// The double with this significand and exponent. Rounding up may have given
/// the significand a 54th bit; then the exponent takes it over.
pub open spec fn with_carry(significand: int, exponent: nat) -> Binary64 {
    if significand == 0x20_0000_0000_0000 {
        Binary64 { significand: 0x10_0000_0000_0000, exponent: (exponent + 1) as u64 }
    } else {
        Binary64 { significand: significand as u64, exponent: exponent as u64 }
    }
}

/// The double nearest to `num / den`, ties going to the even significand.
pub open spec fn nearest(num: int, den: int) -> Binary64 {
    if num == 0 {
        zero()
    } else {
        let exponent = choose|exponent: nat| has_exponent(num, den, exponent);
        with_carry(half_even(num * one_in_units(), den * pow2(exponent)), exponent)
    }
}

/// Scaling both parts of a fraction does not change how it rounds.
proof fn lemma_half_even_scales(num: int, den: int, scale: int)
    requires
        0 <= num,
        0 < den,
        0 < scale,
    ensures
        half_even(num * scale, den * scale) == half_even(num, den),
{
    let below = num / den;
    let rest = num % den;
    lemma_fundamental_div_mod(num, den);
    lemma_mod_bound(num, den);
    assert(num * scale == below * (den * scale) + rest * scale && 0 <= rest * scale < den * scale)
        by (nonlinear_arith)
        requires
            num == den * below + rest,
            0 <= rest < den,
            0 < scale,
    ;
    lemma_fundamental_div_mod_converse(num * scale, den * scale, below, rest * scale);
    assert((2 * (rest * scale) < den * scale <==> 2 * rest < den) && (2 * (rest * scale) == den
        * scale <==> 2 * rest == den)) by (nonlinear_arith)
        requires
            0 < scale,
    ;
}

/// A number has at most one exponent.
proof fn lemma_exponent_is_unique(num: int, den: int, a: nat, b: nat)
    requires
        0 < den,
        has_exponent(num, den, a),
        has_exponent(num, den, b),
    ensures
        a == b,
{
    lemma_exponent_is_least(num, den, a, b);
    lemma_exponent_is_least(num, den, b, a);
}

proof fn lemma_exponent_is_least(num: int, den: int, a: nat, b: nat)
    requires
        0 < den,
        has_exponent(num, den, a),
        has_exponent(num, den, b),
    ensures
        b <= a,
{
    if a < b {
        lemma_pow2_doubles_at_least(a, b);
        let x = pow2(a) as int;
        let y = pow2(b) as int;
        assert(den * y >= 2 * (den * x)) by (nonlinear_arith)
            requires
                y >= 2 * x,
                0 < den,
        ;
    }
}

proof fn lemma_pow2_doubles_at_least(a: nat, b: nat)
    requires
        a < b,
    ensures
        pow2(b) >= 2 * pow2(a),
        pow2(a) > 0,
{
    lemma_pow2_unfold(b);
    lemma_pow2_pos(a);
    if a < b - 1 {
        lemma_pow2_strictly_increases(a, (b - 1) as nat);
    }
}

/// Rounds `num / den` when the fraction, at exponent `exponent`, reduces to
/// `n / d` with an integer part of 53 bits.
proof fn lemma_nearest(num: int, den: int, exponent: nat, n: int, d: int, scale: int)
    requires
        0 < num,
        0 < den,
        0 < d,
        0 < scale,
        num * one_in_units() == n * scale,
        den * pow2(exponent) == d * scale,
        0x10_0000_0000_0000 * d <= n < 0x20_0000_0000_0000 * d,
    ensures
        nearest(num, den) == with_carry(half_even(n, d), exponent),
        0x10_0000_0000_0000 <= half_even(n, d) <= 0x20_0000_0000_0000,
{
    assert(0x10_0000_0000_0000 * (d * scale) <= n * scale < 0x20_0000_0000_0000 * (d * scale))
        by (nonlinear_arith)
        requires
            0x10_0000_0000_0000 * d <= n < 0x20_0000_0000_0000 * d,
            0 < scale,
    ;
    assert(has_exponent(num, den, exponent));
    let chosen = choose|e: nat| has_exponent(num, den, e);
    lemma_exponent_is_unique(num, den, chosen, exponent);
    lemma_half_even_scales(n, d, scale);
    lemma_fundamental_div_mod(n, d);
    lemma_mod_bound(n, d);
    let q = n / d;
    assert(0x10_0000_0000_0000 <= q < 0x20_0000_0000_0000) by (nonlinear_arith)
        requires
            n == d * q + n % d,
            0 <= n % d < d,
            0x10_0000_0000_0000 * d <= n < 0x20_0000_0000_0000 * d,
            0 < d,
    ;
}

/// `num / den` is neither tiny nor huge.
pub open spec fn in_range(num: int, den: int) -> bool {
    &&& 0 < num
    &&& 0 < den
    &&& 0x10_0000_0000_0000 * den <= num * one_in_units()
    &&& num <= den * one_in_units()
}

/// A number in range has an exponent, the one that its double is made with.
pub proof fn lemma_exponent_exists(num: int, den: int) -> (exponent: nat)
    requires
        in_range(num, den),
    ensures
        has_exponent(num, den, exponent),
        exponent <= 2150,
        nearest(num, den) == with_carry(
            half_even(num * one_in_units(), den * pow2(exponent)),
            exponent,
        ),
{
    lemma2_to64();
    let exponent = lemma_search_exponent(num, den, 0);
    let chosen = choose|e: nat| has_exponent(num, den, e);
    lemma_exponent_is_unique(num, den, chosen, exponent);
    if exponent > 2150 {
        let unit = one_in_units();
        lemma_pow2_adds(1075, 1075);
        lemma_pow2_strictly_increases(2150, exponent);
        lemma_pow2_pos(1075);
        let high = pow2(exponent) as int;
        assert(num * unit <= den * (unit * unit)) by (nonlinear_arith)
            requires
                num <= den * unit,
                unit > 0,
        ;
        assert(den * (unit * unit) < den * high) by (nonlinear_arith)
            requires
                unit * unit < high,
                den > 0,
        ;
    }
    exponent
}

proof fn lemma_search_exponent(num: int, den: int, from: nat) -> (exponent: nat)
    requires
        0 < den,
        0x10_0000_0000_0000 * (den * pow2(from)) <= num * one_in_units(),
    ensures
        has_exponent(num, den, exponent),
    decreases num * one_in_units() - den * pow2(from),
{
    if num * one_in_units() < 0x20_0000_0000_0000 * (den * pow2(from)) {
        from
    } else {
        lemma_pow2_unfold(from + 1);
        lemma_pow2_pos(from);
        let p = pow2(from) as int;
        assert(den * (2 * p) == 2 * (den * p) && den * p > 0) by (nonlinear_arith)
            requires
                den > 0,
                p > 0,
        ;
        lemma_search_exponent(num, den, from + 1)
    }
}

/// Rounding to the nearest double is off by one part in `2^53` at most.
pub proof fn lemma_nearest_is_close(num: int, den: int)
    requires
        in_range(num, den),
    ensures
        0x1f_ffff_ffff_ffff * (num * one_in_units()) <= 0x20_0000_0000_0000 * (nearest(
            num,
            den,
        ).units() * den) <= 0x20_0000_0000_0001 * (num * one_in_units()),
        nearest(num, den).is_normal(),
        nearest(num, den).significand > 0,
{
    let exponent = lemma_exponent_exists(num, den);
    let n = num * one_in_units();
    let power = pow2(exponent) as int;
    lemma_pow2_pos(exponent);
    assert(den * power > 0) by (nonlinear_arith)
        requires
            den > 0,
            power > 0,
    ;
    let d = den * power;
    let m = half_even(n, d);
    lemma_fundamental_div_mod(n, d);
    lemma_mod_bound(n, d);
    let (q, r) = (n / d, n % d);
    assert(0x10_0000_0000_0000 <= q < 0x20_0000_0000_0000) by (nonlinear_arith)
        requires
            n == d * q + r,
            0 <= r < d,
            0x10_0000_0000_0000 * d <= n < 0x20_0000_0000_0000 * d,
    ;
    assert(2 * n - d <= 2 * (m * d) <= 2 * n + d) by (nonlinear_arith)
        requires
            n == d * q + r,
            0 <= r < d,
            (m == q && 2 * r <= d) || (m == q + 1 && 2 * r >= d),
    ;
    lemma_carry_keeps_value(m, exponent);
    let units = nearest(num, den).units();
    assert(units * den == m * d) by (nonlinear_arith)
        requires
            units == m * power,
            d == den * power,
    ;
}

proof fn lemma_carry_keeps_value(significand: int, exponent: nat)
    requires
        0x10_0000_0000_0000 <= significand <= 0x20_0000_0000_0000,
        exponent <= 2150,
    ensures
        with_carry(significand, exponent).units() == significand * pow2(exponent),
        with_carry(significand, exponent).is_normal(),
        with_carry(significand, exponent).significand > 0,
{
    lemma_pow2_unfold(exponent + 1);
    assert((exponent + 1) as u64 as nat == exponent + 1);
    assert(pow2(exponent + 1) == 2 * pow2(exponent));
    let double = with_carry(significand, exponent);
    if significand == 0x20_0000_0000_0000 {
        assert(double.units() == 0x10_0000_0000_0000 * pow2(exponent + 1));
    }
}

/// Rounding keeps the order of numbers.
pub proof fn lemma_nearest_is_monotonic(num: int, den: int, other_num: int, other_den: int)
    requires
        in_range(num, den),
        in_range(other_num, other_den),
        num * other_den <= other_num * den,
    ensures
        nearest(num, den).units() <= nearest(other_num, other_den).units(),
{
    let a = lemma_exponent_exists(num, den);
    let b = lemma_exponent_exists(other_num, other_den);
    let unit = one_in_units();
    lemma_pow2_pos(1075);
    lemma_pow2_pos(a);
    lemma_pow2_pos(b);
    let (x, y) = (pow2(a) as int, pow2(b) as int);
    let (n, d) = (num * unit, den * x);
    let (k, e) = (other_num * unit, other_den * y);
    assert(d > 0 && e > 0) by (nonlinear_arith)
        requires
            d == den * x,
            e == other_den * y,
            den > 0,
            x > 0,
            other_den > 0,
            y > 0,
    ;
    lemma_significand_bounds(n, d);
    lemma_significand_bounds(k, e);
    let (m, l) = (half_even(n, d), half_even(k, e));
    lemma_carry_keeps_value(m, a);
    lemma_carry_keeps_value(l, b);
    // The fractions, at their exponents, keep the order: n / d * x <= k / e * y.
    assert(n * (other_den * 1) <= k * (den * 1)) by (nonlinear_arith)
        requires
            n == num * unit,
            k == other_num * unit,
            num * other_den <= other_num * den,
            unit > 0,
    ;
    if a < b {
        lemma_pow2_doubles_at_least(a, b);
        assert(m * x <= l * y) by (nonlinear_arith)
            requires
                m <= 0x20_0000_0000_0000,
                l >= 0x10_0000_0000_0000,
                y >= 2 * x,
                x > 0,
        ;
    } else if a == b {
        assert(n * e <= k * d) by (nonlinear_arith)
            requires
                n * other_den <= k * den,
                e == other_den * y,
                d == den * x,
                x == y,
                x > 0,
        ;
        lemma_half_even_is_monotonic(n, d, k, e);
        assert(m * x <= l * y) by (nonlinear_arith)
            requires
                m <= l,
                x == y,
                x > 0,
        ;
    } else {
        lemma_pow2_doubles_at_least(b, a);
        let h = 0x10_0000_0000_0000int;
        assert(h * (den * x) * other_den <= n * other_den) by (nonlinear_arith)
            requires
                h * (den * x) <= n,
                other_den > 0,
        ;
        assert(k * den < 2 * h * (other_den * y) * den) by (nonlinear_arith)
            requires
                k < 2 * h * (other_den * y),
                den > 0,
        ;
        assert(2 * h * (other_den * y) * den <= h * (den * x) * other_den) by (nonlinear_arith)
            requires
                x >= 2 * y,
                den > 0,
                other_den > 0,
                h > 0,
        ;
    }
}

/// An integer below `2^53` is a double as it stands: some power of two lifts it
/// to a significand of 53 bits.
proof fn lemma_small_integer_shift(n: int, from: nat) -> (shift: nat)
    requires
        0 < n,
        n * pow2(from) < 0x20_0000_0000_0000,
    ensures
        0x10_0000_0000_0000 <= n * pow2(shift) < 0x20_0000_0000_0000,
        shift <= 52,
    decreases 0x20_0000_0000_0000 - n * pow2(from),
{
    let power = pow2(from) as int;
    lemma_pow2_pos(from);
    assert(n * power >= power) by (nonlinear_arith)
        requires
            n >= 1,
            power > 0,
    ;
    if from > 52 {
        lemma2_to64_rest();
        if from > 53 {
            lemma_pow2_strictly_increases(53, from);
        }
    }
    if n * power < 0x10_0000_0000_0000 {
        lemma_pow2_unfold(from + 1);
        assert(n * (2 * power) == 2 * (n * power)) by (nonlinear_arith);
        lemma_small_integer_shift(n, from + 1)
    } else {
        from
    }
}

/// An integer below `2^53` is a double as it stands, and a number that falls
/// short of it by one part in `2^54` still rounds to it.
pub proof fn lemma_small_integer(n: int)
    requires
        0 < n < 0x20_0000_0000_0000,
    ensures
        nearest(n, 1).units() == n * one_in_units(),
        nearest(n * 0x3f_ffff_ffff_ffff, 0x40_0000_0000_0000).units() == n * one_in_units(),
{
    lemma2_to64();
    let shift = lemma_small_integer_shift(n, 0);
    let exponent = (1075 - shift) as nat;
    let (power, scale) = (pow2(shift) as int, pow2(exponent) as int);
    lemma_pow2_adds(shift, exponent);
    lemma_pow2_pos(exponent);
    let m = n * power;
    assert(n * one_in_units() == m * scale) by (nonlinear_arith)
        requires
            m == n * power,
            one_in_units() == power * scale,
    ;
    lemma_nearest(n, 1, exponent, m, 1, scale);
    lemma_carry_keeps_value(m, exponent);
    let short = n * 0x3f_ffff_ffff_ffff;
    assert(short * one_in_units() == (m * 0x3f_ffff_ffff_ffff) * scale) by (nonlinear_arith)
        requires
            n * one_in_units() == m * scale,
            short == n * 0x3f_ffff_ffff_ffff,
    ;
    if m > 0x10_0000_0000_0000 {
        lemma_nearest(
            short,
            0x40_0000_0000_0000,
            exponent,
            m * 0x3f_ffff_ffff_ffff,
            0x40_0000_0000_0000,
            scale,
        );
        lemma_fundamental_div_mod_converse(
            m * 0x3f_ffff_ffff_ffff,
            0x40_0000_0000_0000,
            m - 1,
            0x40_0000_0000_0000 - m,
        );
    } else {
        let low = (exponent - 1) as nat;
        let half = pow2(low) as int;
        lemma_pow2_unfold(exponent);
        lemma_pow2_pos(low);
        let lifted: int = 0x20_0000_0000_0000int * 0x3f_ffff_ffff_ffff;
        assert(short * one_in_units() == lifted * half) by (nonlinear_arith)
            requires
                short * one_in_units() == (m * 0x3f_ffff_ffff_ffff) * scale,
                m == 0x10_0000_0000_0000,
                scale == 2 * half,
                lifted == 0x20_0000_0000_0000 * 0x3f_ffff_ffff_ffff,
        ;
        lemma_nearest(short, 0x40_0000_0000_0000, low, lifted, 0x40_0000_0000_0000, half);
        assert(half_even(lifted, 0x40_0000_0000_0000) == 0x20_0000_0000_0000);
        lemma_carry_keeps_value(0x20_0000_0000_0000, low);
    }
}

/// A double stands for its significand times two to its exponent.
pub proof fn law_double_by_its_parts(double: Binary64)
    ensures
        double.units() == double.significand * pow2(double.exponent as nat),
{
}

/// How far apart two numbers are.
pub open spec fn distance(a: int, b: int) -> int {
    if a <= b {
        b - a
    } else {
        a - b
    }
}

/// Rounding is that of IEEE 754: no double lies nearer to `num / den` than the
/// one it rounds to, and where another one is as near, that one has an even
/// significand.
pub proof fn law_nearest_double(num: int, den: int, other: Binary64)
    requires
        in_range(num, den),
        other.is_normal(),
    ensures
        ({
            let rounded = nearest(num, den);
            let exact = num * pow2(1075);
            let error = distance(rounded.units() * den, exact);
            let other_error = distance(other.units() * den, exact);
            &&& 0x10_0000_0000_0000 <= rounded.significand < 0x20_0000_0000_0000
            &&& error <= other_error
            &&& error == other_error && other.units() != rounded.units() ==> rounded.significand % 2
                == 0
        }),
{
    let exponent = lemma_exponent_exists(num, den);
    let n = num * one_in_units();
    let power = pow2(exponent) as int;
    lemma_pow2_pos(exponent);
    let d = den * power;
    assert(d > 0) by (nonlinear_arith)
        requires
            d == den * power,
            den > 0,
            power > 0,
    ;
    let m = half_even(n, d);
    lemma_significand_bounds(n, d);
    lemma_carry_keeps_value(m, exponent);
    let rounded = nearest(num, den);
    assert(rounded.units() * den == m * d) by (nonlinear_arith)
        requires
            rounded.units() == m * power,
            d == den * power,
    ;
    let lowest = 0x10_0000_0000_0000int;
    lemma_half_even_is_nearest(n, d, lowest);
    let (sig, step) = (other.significand as int, pow2(other.exponent as nat) as int);
    lemma_pow2_pos(other.exponent as nat);
    if other.exponent >= exponent {
        let shift = (other.exponent - exponent) as nat;
        let factor = pow2(shift) as int;
        lemma_pow2_adds(exponent, shift);
        let k = sig * factor;
        assert(other.units() * den == k * d && other.units() == k * power) by (nonlinear_arith)
            requires
                other.units() == sig * step,
                step == power * factor,
                k == sig * factor,
                d == den * power,
        ;
        lemma_half_even_is_nearest(n, d, k);
        if k == m {
            assert(other.units() == rounded.units());
        }
    } else {
        lemma_pow2_doubles_at_least(other.exponent as nat, exponent);
        let v = other.units() * den;
        assert(v < lowest * d) by (nonlinear_arith)
            requires
                v == (sig * step) * den,
                0 <= sig < 2 * lowest,
                power >= 2 * step,
                step > 0,
                den > 0,
                d == den * power,
                lowest > 0,
        ;
    }
}

/// No other multiple of `d` is nearer, and where one is as near the chosen one
/// is even.
proof fn lemma_half_even_is_nearest(n: int, d: int, k: int)
    requires
        0 <= n,
        0 < d,
    ensures
        distance(half_even(n, d) * d, n) <= distance(k * d, n),
        distance(half_even(n, d) * d, n) == distance(k * d, n) && k != half_even(n, d)
            ==> half_even(n, d) % 2 == 0,
{
    lemma_fundamental_div_mod(n, d);
    lemma_mod_bound(n, d);
    let (q, r) = (n / d, n % d);
    assert(q * d == n - r && (q + 1) * d == n - r + d) by (nonlinear_arith)
        requires
            n == d * q + r,
    ;
    if k < q {
        assert(k * d <= q * d - d) by (nonlinear_arith)
            requires
                k <= q - 1,
                d > 0,
        ;
    } else if k > q + 1 {
        assert(k * d >= (q + 1) * d + d) by (nonlinear_arith)
            requires
                k >= q + 2,
                d > 0,
        ;
    }
}

proof fn lemma_significand_bounds(n: int, d: int)
    requires
        0 < d,
        0x10_0000_0000_0000 * d <= n < 0x20_0000_0000_0000 * d,
    ensures
        0x10_0000_0000_0000 <= half_even(n, d) <= 0x20_0000_0000_0000,
{
    lemma_fundamental_div_mod(n, d);
    lemma_mod_bound(n, d);
    let (q, r) = (n / d, n % d);
    assert(0x10_0000_0000_0000 <= q < 0x20_0000_0000_0000) by (nonlinear_arith)
        requires
            n == d * q + r,
            0 <= r < d,
            0x10_0000_0000_0000 * d <= n < 0x20_0000_0000_0000 * d,
    ;
}

proof fn lemma_half_even_is_monotonic(n: int, d: int, k: int, e: int)
    requires
        0 <= n,
        0 <= k,
        0 < d,
        0 < e,
        n * e <= k * d,
    ensures
        half_even(n, d) <= half_even(k, e),
{
    lemma_fundamental_div_mod(n, d);
    lemma_mod_bound(n, d);
    lemma_fundamental_div_mod(k, e);
    lemma_mod_bound(k, e);
    let (q, r) = (n / d, n % d);
    let (p, s) = (k / e, k % e);
    assert(q <= p) by (nonlinear_arith)
        requires
            n == d * q + r,
            k == e * p + s,
            0 <= r < d,
            0 <= s < e,
            n * e <= k * d,
    ;
    if q == p {
        assert(r * e <= s * d) by (nonlinear_arith)
            requires
                n == d * q + r,
                k == e * p + s,
                n * e <= k * d,
                q == p,
        ;
        if 2 * r > d {
            assert(2 * s > e) by (nonlinear_arith)
                requires
                    2 * r > d,
                    r * e <= s * d,
                    d > 0,
                    e > 0,
            ;
        }
        if 2 * r == d {
            assert(2 * s >= e) by (nonlinear_arith)
                requires
                    2 * r == d,
                    r * e <= s * d,
                    d > 0,
            ;
        }
    }
}

/// Rounds `num / den` to the nearest integer.
fn round_half_even(num: u128, den: u128) -> (rounded: u64)
    requires
        0x10_0000_0000_0000 * den <= num < 0x20_0000_0000_0000 * den,
        0 < den <= 0xffff_ffff_ffff_ffff,
    ensures
        rounded == half_even(num as int, den as int),
        0x10_0000_0000_0000 <= rounded <= 0x20_0000_0000_0000,
{
    let below: u128 = num / den;
    let rest: u128 = num % den;
    proof {
        let (n, d, q, r) = (num as int, den as int, below as int, rest as int);
        lemma_fundamental_div_mod(n, d);
        assert(0x10_0000_0000_0000 <= q < 0x20_0000_0000_0000) by (nonlinear_arith)
            requires
                n == d * q + r,
                0 <= r < d,
                0x10_0000_0000_0000 * d <= n < 0x20_0000_0000_0000 * d,
        ;
    }
    if 2 * rest < den || (2 * rest == den && below % 2 == 0) {
        below as u64
    } else {
        (below + 1) as u64
    }
}

/// The double with this significand and exponent.
fn carry(significand: u64, exponent: u64) -> (double: Binary64)
    requires
        0x10_0000_0000_0000 <= significand <= 0x20_0000_0000_0000,
        exponent < u64::MAX,
    ensures
        double == with_carry(significand as int, exponent as nat),
        double.is_normal(),
        0 < double.significand,
        exponent <= double.exponent <= exponent + 1,
{
    if significand == 0x20_0000_0000_0000 {
        Binary64 { significand: 0x10_0000_0000_0000, exponent: exponent + 1 }
    } else {
        Binary64 { significand, exponent }
    }
}

impl Binary64 {
    /// The double nearest to an integer.
    pub(crate) fn from_u64(n: u64) -> (double: Binary64)
        ensures
            double == nearest(n as int, 1),
            double.is_normal(),
            n == 0 <==> double == zero(),
            n > 0 ==> 0 < double.significand && 1023 <= double.exponent <= 1087,
    {
        if n == 0 {
            Binary64 { significand: 0, exponent: 0 }
        } else if n < 0x20_0000_0000_0000 {
            Binary64::from_small(n)
        } else {
            Binary64::from_large(n)
        }
    }

    /// An integer below `2^53`, which is a double as it stands.
    fn from_small(n: u64) -> (double: Binary64)
        requires
            0 < n < 0x20_0000_0000_0000,
        ensures
            double == nearest(n as int, 1),
            double.is_normal(),
            0 < double.significand,
            1023 <= double.exponent <= 1075,
    {
        let mut significand: u64 = n;
        let mut shift: u64 = 0;
        proof {
            lemma2_to64();
        }
        while significand < 0x10_0000_0000_0000
            invariant
                0 < n,
                shift <= 52,
                0 < significand < 0x20_0000_0000_0000,
                significand == n * pow2(shift as nat),
            decreases 0x20_0000_0000_0000 - significand,
        {
            proof {
                lemma2_to64();
                lemma_pow2_unfold((shift + 1) as nat);
                let (a, b) = (n as int, pow2(shift as nat) as int);
                assert(a * b >= b) by (nonlinear_arith)
                    requires
                        a >= 1,
                        b >= 0,
                ;
                assert(a * (2 * b) == 2 * (a * b)) by (nonlinear_arith);
                if shift == 52 {
                    lemma2_to64_rest();
                }
            }
            significand = 2 * significand;
            shift = shift + 1;
        }
        let exponent: u64 = 1075 - shift;
        proof {
            let scale = pow2(exponent as nat) as int;
            lemma_pow2_pos(exponent as nat);
            lemma_pow2_adds(shift as nat, exponent as nat);
            let (a, b) = (n as int, pow2(shift as nat) as int);
            assert(a * (b * scale) == (a * b) * scale) by (nonlinear_arith);
            lemma_nearest(n as int, 1, exponent as nat, significand as int, 1, scale);
        }
        Binary64 { significand, exponent }
    }

    /// An integer of 54 bits and more, whose low bits are rounded off.
    fn from_large(n: u64) -> (double: Binary64)
        requires
            0x20_0000_0000_0000 <= n,
        ensures
            double == nearest(n as int, 1),
            double.is_normal(),
            0 < double.significand,
            1023 <= double.exponent <= 1087,
    {
        let mut divisor: u64 = 2;
        let mut shift: u64 = 1;
        proof {
            lemma2_to64();
        }
        while n / divisor >= 0x20_0000_0000_0000
            invariant
                1 <= shift <= 11,
                2 <= divisor <= 2048,
                divisor == pow2(shift as nat),
                0x10_0000_0000_0000 * divisor <= n,
            decreases 2048 - divisor,
        {
            proof {
                lemma2_to64();
                lemma_pow2_unfold((shift + 1) as nat);
                lemma_fundamental_div_mod(n as int, divisor as int);
                let (q, d) = (n as int / divisor as int, divisor as int);
                assert(d * q >= d * 0x20_0000_0000_0000) by (nonlinear_arith)
                    requires
                        q >= 0x20_0000_0000_0000,
                        d >= 0,
                ;
                if shift == 11 {
                    assert(divisor == 2048);
                }
            }
            divisor = 2 * divisor;
            shift = shift + 1;
        }
        proof {
            lemma_fundamental_div_mod(n as int, divisor as int);
            lemma_mod_bound(n as int, divisor as int);
            let (q, d) = (n as int / divisor as int, divisor as int);
            assert(d * q + d <= d * 0x20_0000_0000_0000) by (nonlinear_arith)
                requires
                    q + 1 <= 0x20_0000_0000_0000,
                    d >= 0,
            ;
            lemma_pow2_pos(1075);
            lemma_pow2_adds(1075, shift as nat);
            assert(pow2((1075 + shift) as nat) == divisor * one_in_units()) by (nonlinear_arith)
                requires
                    pow2((1075 + shift) as nat) == pow2(1075) * pow2(shift as nat),
                    divisor == pow2(shift as nat),
                    one_in_units() == pow2(1075),
            ;
            lemma_nearest(
                n as int,
                1,
                (1075 + shift) as nat,
                n as int,
                divisor as int,
                one_in_units(),
            );
        }
        let significand: u64 = round_half_even(n as u128, divisor as u128);
        carry(significand, 1075 + shift)
    }

    /// The quotient of two doubles.
    pub(crate) fn div(&self, other: &Binary64) -> (quotient: Binary64)
        requires
            self.is_normal(),
            other.is_normal(),
            0 < other.significand,
            self.significand > 0 ==> 900 <= self.exponent <= 1200,
            900 <= other.exponent <= 1200,
        ensures
            quotient == nearest(self.units(), other.units()),
            quotient.is_normal(),
            self.significand == 0 <==> quotient == zero(),
            self.significand > 0 ==> self.exponent + 1022 <= quotient.exponent + other.exponent
                <= self.exponent + 1024,
    {
        if self.significand == 0 {
            return Binary64 { significand: 0, exponent: 0 };
        }
        let shift: u64 = if self.significand >= other.significand {
            52
        } else {
            53
        };
        let power: u128 = if self.significand >= other.significand {
            0x10_0000_0000_0000
        } else {
            0x20_0000_0000_0000
        };
        let exponent: u64 = self.exponent + 1075 - other.exponent - shift;
        assert(self.significand * power <= 0x20_0000_0000_0000 * 0x20_0000_0000_0000)
            by (nonlinear_arith)
            requires
                self.significand <= 0x20_0000_0000_0000,
                power <= 0x20_0000_0000_0000,
        ;
        let num: u128 = (self.significand as u128) * power;
        proof {
            lemma2_to64_rest();
            assert(power == pow2(shift as nat));
            let low = (self.exponent + 1075 - shift) as nat;
            let scale = pow2(low) as int;
            lemma_pow2_pos(low);
            lemma_pow2_pos(self.exponent as nat);
            lemma_pow2_pos(other.exponent as nat);
            lemma_pow2_adds(self.exponent as nat, 1075);
            lemma_pow2_adds(shift as nat, low);
            lemma_pow2_adds(other.exponent as nat, exponent as nat);
            let (m, e, u) = (
                self.significand as int,
                pow2(self.exponent as nat) as int,
                one_in_units(),
            );
            let p = power as int;
            assert((m * e) * u == (m * p) * scale) by (nonlinear_arith)
                requires
                    e * u == p * scale,
            ;
            let (k, f, g) = (
                other.significand as int,
                pow2(other.exponent as nat) as int,
                pow2(exponent as nat) as int,
            );
            assert((k * f) * g == k * scale) by (nonlinear_arith)
                requires
                    f * g == scale,
            ;
            assert(m * e > 0 && k * f > 0) by (nonlinear_arith)
                requires
                    m > 0,
                    e > 0,
                    k > 0,
                    f > 0,
            ;
            lemma_nearest(self.units(), other.units(), exponent as nat, num as int, k, scale);
        }
        let significand: u64 = round_half_even(num, other.significand as u128);
        carry(significand, exponent)
    }

    /// The product of two doubles.
    pub(crate) fn mul(&self, other: &Binary64) -> (product: Binary64)
        requires
            self.is_normal(),
            other.is_normal(),
            0 < other.significand,
            self.significand > 0 ==> 900 <= self.exponent <= 1200,
            1023 <= other.exponent <= 1200,
        ensures
            product == nearest(
                self.units() * other.units(),
                one_in_units() * one_in_units(),
            ),
            product.is_normal(),
    {
        if self.significand == 0 {
            assert(self.units() == 0);
            assert(self.units() * other.units() == 0);
            return Binary64 { significand: 0, exponent: 0 };
        }
        proof {
            let (a, b) = (self.significand as int, other.significand as int);
            assert(0x10_0000_0000_0000 * 0x10_0000_0000_0000 <= a * b < 0x20_0000_0000_0000
                * 0x20_0000_0000_0000) by (nonlinear_arith)
                requires
                    0x10_0000_0000_0000 <= a < 0x20_0000_0000_0000,
                    0x10_0000_0000_0000 <= b < 0x20_0000_0000_0000,
            ;
        }
        let num: u128 = (self.significand as u128) * (other.significand as u128);
        let wide: bool = num >= 0x10_0000_0000_0000 * 0x20_0000_0000_0000;
        let shift: u64 = if wide {
            53
        } else {
            52
        };
        let power: u128 = if wide {
            0x20_0000_0000_0000
        } else {
            0x10_0000_0000_0000
        };
        let exponent: u64 = self.exponent + other.exponent + shift - 1075;
        proof {
            lemma2_to64_rest();
            assert(power == pow2(shift as nat));
            let sum = self.exponent as nat + other.exponent as nat;
            let scale = pow2(sum + 1075) as int;
            let u = one_in_units();
            lemma_pow2_pos(sum + 1075);
            lemma_pow2_pos(1075);
            lemma_pow2_pos(self.exponent as nat);
            lemma_pow2_pos(other.exponent as nat);
            lemma_pow2_adds(self.exponent as nat, other.exponent as nat);
            lemma_pow2_adds(sum, 1075);
            lemma_pow2_adds(1075, 1075);
            lemma_pow2_adds(2150, exponent as nat);
            lemma_pow2_adds(shift as nat, sum + 1075);
            let (m, e) = (self.significand as int, pow2(self.exponent as nat) as int);
            let (k, f) = (other.significand as int, pow2(other.exponent as nat) as int);
            assert(((m * e) * (k * f)) * u == (m * k) * scale) by (nonlinear_arith)
                requires
                    e * f * u == scale,
            ;
            assert((m * e) * (k * f) > 0 && u * u > 0) by (nonlinear_arith)
                requires
                    m > 0,
                    e > 0,
                    k > 0,
                    f > 0,
                    u > 0,
            ;
            lemma_nearest(
                self.units() * other.units(),
                u * u,
                exponent as nat,
                num as int,
                power as int,
                scale,
            );
        }
        let significand: u64 = round_half_even(num, power);
        carry(significand, exponent)
    }

    /// Whether this double is the larger one.
    pub(crate) fn exceeds(&self, other: &Binary64) -> (larger: bool)
        requires
            self.is_normal(),
            other.is_normal(),
        ensures
            larger == (self.units() > other.units()),
    {
        proof {
            lemma_units_order(*self, *other);
            lemma_units_order(*other, *self);
        }
        self.exponent > other.exponent || (self.exponent == other.exponent && self.significand
            > other.significand)
    }
}

/// The double nearest to one tenth.
pub open spec fn tenth() -> Binary64 {
    nearest(1, 10)
}

/// The double nearest to the sum of one and `tenth()`.
pub open spec fn one_and_a_tenth() -> Binary64 {
    nearest(one_in_units() + tenth().units(), one_in_units())
}

/// The double that one and a tenth add up to.
pub(crate) fn add_tenth_to_one() -> (sum: Binary64)
    ensures
        sum == one_and_a_tenth(),
        sum.is_normal(),
        sum.significand > 0,
        sum.exponent == 1023,
{
    proof {
        lemma_one_and_a_tenth();
    }
    Binary64 { significand: 0x11_9999_9999_999a, exponent: 1023 }
}

/// The two constants, written out.
pub proof fn lemma_one_and_a_tenth()
    ensures
        tenth() == (Binary64 { significand: 0x19_9999_9999_999a, exponent: 1019 }),
        one_and_a_tenth() == (Binary64 { significand: 0x11_9999_9999_999a, exponent: 1023 }),
{
    let unit = one_in_units();
    let low = pow2(1019) as int;
    lemma2_to64();
    lemma2_to64_rest();
    lemma_pow2_pos(1019);
    lemma_pow2_adds(56, 1019);
    assert(unit == 0x100_0000_0000_0000 * low);
    lemma_nearest(1, 10, 1019, 0x100_0000_0000_0000, 10, low);
    assert(half_even(0x100_0000_0000_0000, 10) == 0x19_9999_9999_999a);
    assert(tenth() == (Binary64 { significand: 0x19_9999_9999_999a, exponent: 1019 }));
    lemma_pow2_adds(4, 1019);
    let sum = unit + tenth().units();
    assert(sum == 0x119_9999_9999_999a * low);
    let scale = low * unit;
    assert(scale > 0 && (0x119_9999_9999_999a * low) * unit == 0x119_9999_9999_999a * scale && unit
        * (16 * low) == 16 * scale) by (nonlinear_arith)
        requires
            low > 0,
            unit > 0,
            scale == low * unit,
    ;
    lemma_nearest(sum, unit, 1023, 0x119_9999_9999_999a, 16, scale);
    assert(half_even(0x119_9999_9999_999a, 16) == 0x11_9999_9999_999a);
}

/// Doubles are ordered by exponent first, and by significand within one.
proof fn lemma_units_order(a: Binary64, b: Binary64)
    requires
        a.is_normal(),
        b.is_normal(),
    ensures
        a.exponent > b.exponent ==> a.units() > b.units(),
        a.exponent == b.exponent && a.significand > b.significand ==> a.units() > b.units(),
        a.exponent == b.exponent && a.significand == b.significand ==> a.units() == b.units(),
{
    let (m, e) = (a.significand as int, pow2(a.exponent as nat) as int);
    let (k, f) = (b.significand as int, pow2(b.exponent as nat) as int);
    lemma_pow2_pos(a.exponent as nat);
    lemma_pow2_pos(b.exponent as nat);
    if a.exponent > b.exponent {
        lemma_pow2_doubles_at_least(b.exponent as nat, a.exponent as nat);
        assert(m * e > k * f) by (nonlinear_arith)
            requires
                m >= 0x10_0000_0000_0000,
                0 <= k < 0x20_0000_0000_0000,
                e >= 2 * f,
                f > 0,
        ;
    } else if a.exponent == b.exponent && m > k {
        assert(m * e > k * f) by (nonlinear_arith)
            requires
                m > k,
                e == f,
                e > 0,
        ;
    }
}

} // verus!
