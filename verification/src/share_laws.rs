//! What holds of the decision to sync, rounding included.

use vstd::arithmetic::power2::*;
use vstd::prelude::*;

use crate::binary64;
use crate::share;

verus! {

/// A node on its own never has to sync.
pub proof fn law_single_node_never_syncs(max_bucket_credits: u64, credits_to_be_used: u64)
    ensures
        !share::needs_sync(max_bucket_credits, credits_to_be_used, 1),
{
}

/// One is many units.
proof fn lemma_unit_is_large()
    ensures
        binary64::one_in_units() >= 0x1_0000_0000_0000_0000 * 0x1_0000_0000_0000_0000,
{
    lemma2_to64();
    lemma_pow2_adds(64, 64);
    lemma_pow2_strictly_increases(128, 1075);
}

/// How close the double nearest to a positive integer is.
proof fn lemma_integer_bounds(n: u64)
    requires
        n > 0,
    ensures
        ({
            let unit = binary64::one_in_units();
            let rounded = binary64::nearest(n as int, 1).units();
            &&& binary64::in_range(n as int, 1)
            &&& 0x1f_ffff_ffff_ffff * (n * unit) <= 0x20_0000_0000_0000 * rounded
                <= 0x20_0000_0000_0001 * (n * unit)
            &&& unit <= 2 * rounded
            &&& rounded <= 0x2_0000_0000_0000_0000 * unit
        }),
{
    let unit = binary64::one_in_units();
    let m = n as int;
    lemma_unit_is_large();
    assert(unit <= m * unit && m * unit <= 0x1_0000_0000_0000_0000 * unit) by (nonlinear_arith)
        requires
            1 <= m <= 0x1_0000_0000_0000_0000,
            unit > 0,
    ;
    binary64::lemma_nearest_is_close(m, 1);
    let rounded = binary64::nearest(m, 1).units();
    assert(rounded * 1 == rounded);
}

/// How close the fair share is.
proof fn lemma_fair_share_bounds(max_bucket_credits: u64, participants: u64)
    requires
        max_bucket_credits > 0,
        participants > 0,
    ensures
        ({
            let unit = binary64::one_in_units();
            let max = binary64::nearest(max_bucket_credits as int, 1).units();
            let nodes = binary64::nearest(participants as int, 1).units();
            let share = share::fair_share(max_bucket_credits, participants).units();
            &&& binary64::in_range(max, nodes)
            &&& 0x1f_ffff_ffff_ffff * (max * unit) <= 0x20_0000_0000_0000 * (share * nodes)
                <= 0x20_0000_0000_0001 * (max * unit)
            &&& unit <= 0x10_0000_0000_0000_0000 * share
            &&& share <= 0x10_0000_0000_0000_0000 * unit
        }),
{
    let unit = binary64::one_in_units();
    let max = binary64::nearest(max_bucket_credits as int, 1).units();
    let nodes = binary64::nearest(participants as int, 1).units();
    let share = share::fair_share(max_bucket_credits, participants).units();
    lemma_unit_is_large();
    lemma_integer_bounds(max_bucket_credits);
    lemma_integer_bounds(participants);
    assert(0x10_0000_0000_0000 * nodes <= max * unit) by (nonlinear_arith)
        requires
            nodes <= 0x2_0000_0000_0000_0000 * unit,
            unit <= 2 * max,
            unit >= 0x1_0000_0000_0000_0000 * 0x1_0000_0000_0000_0000,
    ;
    assert(max <= nodes * unit) by (nonlinear_arith)
        requires
            max <= 0x2_0000_0000_0000_0000 * unit,
            unit <= 2 * nodes,
            unit >= 0x1_0000_0000_0000_0000 * 0x1_0000_0000_0000_0000,
    ;
    binary64::lemma_nearest_is_close(max, nodes);
    let wide = 0x10_0000_0000_0000_0000int;
    assert(unit <= wide * share) by (nonlinear_arith)
        requires
            0x1f_ffff_ffff_ffff * (max * unit) <= 0x20_0000_0000_0000 * (share * nodes),
            nodes <= 0x2_0000_0000_0000_0000 * unit,
            unit <= 2 * max,
            unit > 0,
            nodes > 0,
            max > 0,
            wide == 0x10_0000_0000_0000_0000,
    ;
    assert(share <= wide * unit) by (nonlinear_arith)
        requires
            0x20_0000_0000_0000 * (share * nodes) <= 0x20_0000_0000_0001 * (max * unit),
            max <= 0x2_0000_0000_0000_0000 * unit,
            unit <= 2 * nodes,
            unit > 0,
            nodes > 0,
            max > 0,
            wide == 0x10_0000_0000_0000_0000,
    ;
}

/// How close the constant for one and a tenth is.
proof fn lemma_margin_bounds()
    ensures
        ({
            let unit = binary64::one_in_units();
            let margin = binary64::one_and_a_tenth().units();
            &&& 11 * unit <= 10 * margin
            &&& 0x20_0000_0000_0000 * (10 * margin) <= 0x20_0000_0000_0001 * (11 * unit)
        }),
{
    binary64::lemma_one_and_a_tenth();
    lemma2_to64_rest();
    lemma_pow2_adds(52, 1023);
    lemma_pow2_pos(1023);
}

/// How close the allowed share is to what it stands for.
proof fn lemma_allowed_share_bounds(max_bucket_credits: u64, participants: u64)
    requires
        max_bucket_credits > 0,
        participants > 0,
    ensures
        ({
            let unit = binary64::one_in_units();
            let share = share::fair_share(max_bucket_credits, participants).units();
            let margin = binary64::one_and_a_tenth().units();
            let allowed = share::allowed_share(max_bucket_credits, participants).units();
            &&& binary64::in_range(share * margin, unit * unit)
            &&& 0x1f_ffff_ffff_ffff * (share * margin) <= 0x20_0000_0000_0000 * (allowed * unit)
                <= 0x20_0000_0000_0001 * (share * margin)
        }),
{
    let unit = binary64::one_in_units();
    let share = share::fair_share(max_bucket_credits, participants).units();
    let margin = binary64::one_and_a_tenth().units();
    let allowed = share::allowed_share(max_bucket_credits, participants).units();
    lemma_unit_is_large();
    lemma_fair_share_bounds(max_bucket_credits, participants);
    lemma_margin_bounds();
    let wide = 0x10_0000_0000_0000_0000int;
    let product = share * margin;
    assert(wide * product >= unit * unit) by (nonlinear_arith)
        requires
            product == share * margin,
            unit <= wide * share,
            unit <= margin,
            unit > 0,
    ;
    assert(product <= 2 * wide * (unit * unit)) by (nonlinear_arith)
        requires
            product == share * margin,
            0 <= share <= wide * unit,
            margin <= 2 * unit,
            unit > 0,
            wide > 0,
    ;
    assert(product > 0 && unit * unit > 0) by (nonlinear_arith)
        requires
            wide * product >= unit * unit,
            unit > 0,
            wide > 0,
    ;
    assert(0x10_0000_0000_0000 * (unit * unit) <= product * unit) by (nonlinear_arith)
        requires
            wide * product >= unit * unit,
            unit >= 0x1_0000_0000_0000_0000 * 0x1_0000_0000_0000_0000,
            wide == 0x10_0000_0000_0000_0000,
    ;
    assert(product <= (unit * unit) * unit) by (nonlinear_arith)
        requires
            product <= 2 * wide * (unit * unit),
            unit >= 0x1_0000_0000_0000_0000 * 0x1_0000_0000_0000_0000,
            wide == 0x10_0000_0000_0000_0000,
    ;
    binary64::lemma_nearest_is_close(product, unit * unit);
    assert(0x1f_ffff_ffff_ffff * product <= 0x20_0000_0000_0000 * (allowed * unit)
        && 0x20_0000_0000_0000 * (allowed * unit) <= 0x20_0000_0000_0001 * product)
        by (nonlinear_arith)
        requires
            0x1f_ffff_ffff_ffff * (product * unit) <= 0x20_0000_0000_0000 * (allowed * (unit
                * unit)),
            0x20_0000_0000_0000 * (allowed * (unit * unit)) <= 0x20_0000_0000_0001 * (product
                * unit),
            unit > 0,
    ;
}

/// The allowed share lies within six parts in `2^53` of eleven tenths of the
/// bucket, divided among the nodes.
proof fn lemma_allowed_share_is_close(max_bucket_credits: u64, participants: u64)
    requires
        max_bucket_credits > 0,
        participants > 0,
    ensures
        ({
            let unit = binary64::one_in_units();
            let allowed = share::allowed_share(max_bucket_credits, participants).units();
            let exact = 11 * (max_bucket_credits * unit);
            0x1f_ffff_ffff_fffb * exact <= 0x20_0000_0000_0000 * (10 * (allowed * participants))
                <= 0x20_0000_0000_0006 * exact
        }),
{
    let unit = binary64::one_in_units();
    let max = binary64::nearest(max_bucket_credits as int, 1).units();
    let nodes = binary64::nearest(participants as int, 1).units();
    let share = share::fair_share(max_bucket_credits, participants).units();
    let margin = binary64::one_and_a_tenth().units();
    let allowed = share::allowed_share(max_bucket_credits, participants).units();
    lemma_unit_is_large();
    lemma_integer_bounds(max_bucket_credits);
    lemma_integer_bounds(participants);
    lemma_fair_share_bounds(max_bucket_credits, participants);
    lemma_margin_bounds();
    lemma_allowed_share_bounds(max_bucket_credits, participants);
    lemma_units_nonnegative(share::allowed_share(max_bucket_credits, participants));
    let (m, p) = (max_bucket_credits as int, participants as int);
    lemma_upper_chain(m, p, max, nodes, share, margin, allowed, unit);
    lemma_lower_chain(m, p, max, nodes, share, margin, allowed, unit);
}

proof fn lemma_upper_chain(
    m: int,
    p: int,
    max: int,
    nodes: int,
    share: int,
    margin: int,
    allowed: int,
    unit: int,
)
    requires
        0 < m,
        0 < p,
        0 < max,
        0 < nodes,
        0 < share,
        0 < margin,
        0 < unit,
        0 <= allowed,
        0x20_0000_0000_0000 * max <= 0x20_0000_0000_0001 * (m * unit),
        0x1f_ffff_ffff_ffff * (p * unit) <= 0x20_0000_0000_0000 * nodes,
        0x20_0000_0000_0000 * (share * nodes) <= 0x20_0000_0000_0001 * (max * unit),
        0x20_0000_0000_0000 * (10 * margin) <= 0x20_0000_0000_0001 * (11 * unit),
        0x20_0000_0000_0000 * (allowed * unit) <= 0x20_0000_0000_0001 * (share * margin),
    ensures
        0x20_0000_0000_0000 * (10 * (allowed * p)) <= 0x20_0000_0000_0006 * (11 * (m * unit)),
{
    let e = 0x20_0000_0000_0000int;
    let f = 0x20_0000_0000_0001int;
    // allowed * unit * nodes, bounded through share * nodes and margin.
    assert(e * ((allowed * unit) * nodes) <= f * ((share * nodes) * margin)) by (nonlinear_arith)
        requires
            e * (allowed * unit) <= f * (share * margin),
            nodes > 0,
    ;
    assert(e * ((share * nodes) * margin) <= f * ((max * unit) * margin)) by (nonlinear_arith)
        requires
            e * (share * nodes) <= f * (max * unit),
            margin > 0,
    ;
    assert(e * ((max * unit) * (10 * margin)) <= f * ((max * unit) * (11 * unit)))
        by (nonlinear_arith)
        requires
            e * (10 * margin) <= f * (11 * unit),
            max > 0,
            unit > 0,
    ;
    assert(e * (max * (unit * unit)) <= f * ((m * unit) * (unit * unit))) by (nonlinear_arith)
        requires
            e * max <= f * (m * unit),
            unit > 0,
    ;
    assert((max * unit) * (11 * unit) == 11 * (max * (unit * unit))) by (nonlinear_arith);
    assert((max * unit) * (10 * margin) == 10 * ((max * unit) * margin)) by (nonlinear_arith);
    let left = (allowed * unit) * nodes;
    let right = (m * unit) * (unit * unit);
    let charge = allowed * unit * (p * unit);
    assert((f - 2) * charge <= e * left && right > 0) by (nonlinear_arith)
        requires
            (f - 2) * (p * unit) <= e * nodes,
            left == (allowed * unit) * nodes,
            charge == allowed * unit * (p * unit),
            right == (m * unit) * (unit * unit),
            allowed >= 0,
            unit > 0,
            m > 0,
    ;
    lemma_upper_links(
        charge,
        left,
        (share * nodes) * margin,
        (max * unit) * margin,
        max * (unit * unit),
        right,
    );
    let area = unit * unit;
    let (z, y) = (allowed * p, m * unit);
    assert(charge == z * area && right == y * area && area > 0) by (nonlinear_arith)
        requires
            z == allowed * p,
            y == m * unit,
            area == unit * unit,
            charge == allowed * unit * (p * unit),
            right == (m * unit) * (unit * unit),
            unit > 0,
    ;
    assert(0x20_0000_0000_0000 * (10 * z) <= 0x20_0000_0000_0006 * (11 * y)) by (nonlinear_arith)
        requires
            0x20_0000_0000_0000 * (10 * (z * area)) <= 0x20_0000_0000_0006 * (11 * (y * area)),
            area > 0,
    ;
}

/// Five steps, each off by one part in `2^53`, are off by six at most.
proof fn lemma_upper_links(a: int, b: int, c: int, d: int, e: int, f: int)
    requires
        0x1f_ffff_ffff_ffff * a <= 0x20_0000_0000_0000 * b,
        0x20_0000_0000_0000 * b <= 0x20_0000_0000_0001 * c,
        0x20_0000_0000_0000 * c <= 0x20_0000_0000_0001 * d,
        0x20_0000_0000_0000 * (10 * d) <= 0x20_0000_0000_0001 * (11 * e),
        0x20_0000_0000_0000 * e <= 0x20_0000_0000_0001 * f,
        0 <= f,
    ensures
        0x20_0000_0000_0000 * (10 * a) <= 0x20_0000_0000_0006 * (11 * f),
{
}

/// Four steps, each off by one part in `2^53`, are off by five at most.
proof fn lemma_lower_links(a: int, b: int, c: int, d: int, e: int, f: int)
    requires
        0x20_0000_0000_0000 * b <= 0x20_0000_0000_0001 * a,
        0x1f_ffff_ffff_ffff * c <= 0x20_0000_0000_0000 * b,
        0x1f_ffff_ffff_ffff * d <= 0x20_0000_0000_0000 * c,
        11 * e <= 10 * d,
        0x1f_ffff_ffff_ffff * f <= 0x20_0000_0000_0000 * e,
        0 <= f,
    ensures
        0x1f_ffff_ffff_fffb * (11 * f) <= 0x20_0000_0000_0000 * (10 * a),
{
}

proof fn lemma_lower_chain(
    m: int,
    p: int,
    max: int,
    nodes: int,
    share: int,
    margin: int,
    allowed: int,
    unit: int,
)
    requires
        0 < m,
        0 < p,
        0 < max,
        0 < nodes,
        0 < share,
        0 < margin,
        0 < unit,
        0 <= allowed,
        0x1f_ffff_ffff_ffff * (m * unit) <= 0x20_0000_0000_0000 * max,
        0x20_0000_0000_0000 * nodes <= 0x20_0000_0000_0001 * (p * unit),
        0x1f_ffff_ffff_ffff * (max * unit) <= 0x20_0000_0000_0000 * (share * nodes),
        11 * unit <= 10 * margin,
        0x1f_ffff_ffff_ffff * (share * margin) <= 0x20_0000_0000_0000 * (allowed * unit),
    ensures
        0x1f_ffff_ffff_fffb * (11 * (m * unit)) <= 0x20_0000_0000_0000 * (10 * (allowed * p)),
{
    let e = 0x20_0000_0000_0000int;
    let f = 0x1f_ffff_ffff_ffffint;
    assert(f * ((share * nodes) * margin) <= e * ((allowed * unit) * nodes)) by (nonlinear_arith)
        requires
            f * (share * margin) <= e * (allowed * unit),
            nodes > 0,
    ;
    assert(f * ((max * unit) * margin) <= e * ((share * nodes) * margin)) by (nonlinear_arith)
        requires
            f * (max * unit) <= e * (share * nodes),
            margin > 0,
    ;
    assert((max * unit) * (11 * unit) <= (max * unit) * (10 * margin)) by (nonlinear_arith)
        requires
            11 * unit <= 10 * margin,
            max > 0,
            unit > 0,
    ;
    assert(f * ((m * unit) * (unit * unit)) <= e * (max * (unit * unit))) by (nonlinear_arith)
        requires
            f * (m * unit) <= e * max,
            unit > 0,
    ;
    assert((max * unit) * (11 * unit) == 11 * (max * (unit * unit))) by (nonlinear_arith);
    assert((max * unit) * (10 * margin) == 10 * ((max * unit) * margin)) by (nonlinear_arith);
    let left = (allowed * unit) * nodes;
    let right = (m * unit) * (unit * unit);
    let charge = allowed * unit * (p * unit);
    assert(e * left <= (e + 1) * charge && right > 0) by (nonlinear_arith)
        requires
            e * nodes <= (e + 1) * (p * unit),
            left == (allowed * unit) * nodes,
            charge == allowed * unit * (p * unit),
            right == (m * unit) * (unit * unit),
            allowed >= 0,
            unit > 0,
            m > 0,
    ;
    lemma_lower_links(
        charge,
        left,
        (share * nodes) * margin,
        (max * unit) * margin,
        max * (unit * unit),
        right,
    );
    let area = unit * unit;
    let (z, y) = (allowed * p, m * unit);
    assert(charge == z * area && right == y * area && area > 0) by (nonlinear_arith)
        requires
            z == allowed * p,
            y == m * unit,
            area == unit * unit,
            charge == allowed * unit * (p * unit),
            right == (m * unit) * (unit * unit),
            unit > 0,
    ;
    assert(0x1f_ffff_ffff_fffb * (11 * y) <= 0x20_0000_0000_0000 * (10 * z)) by (nonlinear_arith)
        requires
            0x1f_ffff_ffff_fffb * (11 * (y * area)) <= 0x20_0000_0000_0000 * (10 * (z * area)),
            area > 0,
    ;
}

/// A request within the node's fair share never forces a sync.
pub proof fn law_fair_share_needs_no_sync(
    max_bucket_credits: u64,
    credits_to_be_used: u64,
    participants: u64,
)
    requires
        participants > 0,
        credits_to_be_used * participants <= max_bucket_credits,
    ensures
        !share::needs_sync(max_bucket_credits, credits_to_be_used, participants),
{
    let (c, p, m) = (credits_to_be_used as int, participants as int, max_bucket_credits as int);
    let unit = binary64::one_in_units();
    let used = binary64::nearest(c, 1).units();
    let allowed = share::allowed_share(max_bucket_credits, participants).units();
    lemma_units_nonnegative(share::allowed_share(max_bucket_credits, participants));
    if c > 0 {
        assert(m > 0) by (nonlinear_arith)
            requires
                c * p <= m,
                c > 0,
                p > 0,
        ;
        lemma_unit_is_large();
        lemma_integer_bounds(credits_to_be_used);
        lemma_allowed_share_is_close(max_bucket_credits, participants);
        if used > allowed {
            lemma_comparison_scales(c, p, m, unit, used, allowed);
            assert((c * p) * unit <= m * unit) by (nonlinear_arith)
                requires
                    c * p <= m,
                    unit > 0,
            ;
            assert(m * unit > 0) by (nonlinear_arith)
                requires
                    m > 0,
                    unit > 0,
            ;
        }
    }
}

proof fn lemma_units_nonnegative(double: binary64::Binary64)
    ensures
        0 <= double.units(),
{
    let (m, e) = (double.significand as int, pow2(double.exponent as nat) as int);
    assert(0 <= m * e) by (nonlinear_arith)
        requires
            0 <= m,
            0 <= e,
    ;
}

/// `used`, in units, times the number of nodes, is close to what it stands for.
proof fn lemma_comparison_scales(c: int, p: int, m: int, unit: int, used: int, allowed: int)
    requires
        0 < p,
        0x1f_ffff_ffff_ffff * (c * unit) <= 0x20_0000_0000_0000 * used <= 0x20_0000_0000_0001 * (c
            * unit),
    ensures
        0x1f_ffff_ffff_ffff * ((c * p) * unit) <= 0x20_0000_0000_0000 * (used * p)
            <= 0x20_0000_0000_0001 * ((c * p) * unit),
        used > allowed ==> used * p > allowed * p,
        used <= allowed ==> used * p <= allowed * p,
{
    assert(0x1f_ffff_ffff_ffff * ((c * p) * unit) <= 0x20_0000_0000_0000 * (used * p)
        && 0x20_0000_0000_0000 * (used * p) <= 0x20_0000_0000_0001 * ((c * p) * unit))
        by (nonlinear_arith)
        requires
            0 < p,
            0x1f_ffff_ffff_ffff * (c * unit) <= 0x20_0000_0000_0000 * used,
            0x20_0000_0000_0000 * used <= 0x20_0000_0000_0001 * (c * unit),
    ;
    assert((used > allowed ==> used * p > allowed * p) && (used <= allowed ==> used * p <= allowed
        * p)) by (nonlinear_arith)
        requires
            0 < p,
    ;
}

/// A request that takes exactly eleven tenths of the node's share forces no
/// sync: what the division rounds off is less than what the constant for one
/// and a tenth has too much, up to a rest that the product rounds away.
proof fn lemma_exact_share_is_allowed(
    max_bucket_credits: u64,
    credits_to_be_used: u64,
    participants: u64,
)
    requires
        0 < max_bucket_credits <= 0x4000_0000_0000,
        0 < credits_to_be_used,
        0 < participants,
        10 * (credits_to_be_used * participants) == 11 * max_bucket_credits,
    ensures
        binary64::nearest(credits_to_be_used as int, 1).units() <= share::allowed_share(
            max_bucket_credits,
            participants,
        ).units(),
{
    let (c, p, m) = (credits_to_be_used as int, participants as int, max_bucket_credits as int);
    let unit = binary64::one_in_units();
    let share = share::fair_share(max_bucket_credits, participants).units();
    let margin = binary64::one_and_a_tenth().units();
    assert(c <= c * p && p <= c * p) by (nonlinear_arith)
        requires
            c >= 1,
            p >= 1,
    ;
    binary64::lemma_small_integer(c);
    binary64::lemma_small_integer(p);
    binary64::lemma_small_integer(m);
    lemma_unit_is_large();
    lemma_fair_share_bounds(max_bucket_credits, participants);
    lemma_allowed_share_bounds(max_bucket_credits, participants);
    assert(0x1f_ffff_ffff_ffff * (m * unit) <= 0x20_0000_0000_0000 * (share * p))
        by (nonlinear_arith)
        requires
            0x1f_ffff_ffff_ffff * ((m * unit) * unit) <= 0x20_0000_0000_0000 * (share * (p
                * unit)),
            unit > 0,
    ;
    binary64::lemma_one_and_a_tenth();
    lemma2_to64_rest();
    let low = pow2(1023) as int;
    lemma_pow2_adds(52, 1023);
    lemma_pow2_pos(1023);
    assert(10 * margin == 11 * unit + 4 * low);
    let (short, whole) = (c * 0x3f_ffff_ffff_ffff, 0x40_0000_0000_0000int);
    lemma_margin_outweighs_rounding(c, p, m, unit, low, share, margin);
    lemma_short_in_range(c, unit);
    assert(short * (unit * unit) == 0x3f_ffff_ffff_ffff * (c * (unit * unit))) by (nonlinear_arith)
        requires
            short == c * 0x3f_ffff_ffff_ffff,
    ;
    binary64::lemma_nearest_is_monotonic(short, whole, share * margin, unit * unit);
}

proof fn lemma_short_in_range(c: int, unit: int)
    requires
        0 < c < 0x20_0000_0000_0000,
        unit == binary64::one_in_units(),
    ensures
        binary64::in_range(c * 0x3f_ffff_ffff_ffff, 0x40_0000_0000_0000),
{
    lemma_unit_is_large();
    let short = c * 0x3f_ffff_ffff_ffff;
    assert(short * unit >= 0x10_0000_0000_0000 * 0x40_0000_0000_0000) by (nonlinear_arith)
        requires
            short >= 1,
            unit >= 0x1_0000_0000_0000_0000 * 0x1_0000_0000_0000_0000,
    ;
}

proof fn lemma_margin_outweighs_rounding(
    c: int,
    p: int,
    m: int,
    unit: int,
    low: int,
    share: int,
    margin: int,
)
    requires
        0 < c,
        0 < p,
        0 < m,
        0 < low,
        unit == 0x10_0000_0000_0000 * low,
        10 * (c * p) == 11 * m,
        10 * margin == 11 * unit + 4 * low,
        0x1f_ffff_ffff_ffff * (m * unit) <= 0x20_0000_0000_0000 * (share * p),
    ensures
        0x3f_ffff_ffff_ffff * (c * (unit * unit)) <= 0x40_0000_0000_0000 * (share * margin),
{
    let tenfold = 10 * margin;
    let area = m * (unit * unit);
    // Both sides times 10 p, in which the share and the margin meet.
    assert(0x1f_ffff_ffff_ffff * ((m * unit) * tenfold) <= 0x20_0000_0000_0000 * ((share * p)
        * tenfold)) by (nonlinear_arith)
        requires
            0x1f_ffff_ffff_ffff * (m * unit) <= 0x20_0000_0000_0000 * (share * p),
            tenfold > 0,
    ;
    assert(0x10_0000_0000_0000 * ((m * unit) * tenfold) == 0xb0_0000_0000_0004 * area)
        by (nonlinear_arith)
        requires
            tenfold == 11 * unit + 4 * low,
            unit == 0x10_0000_0000_0000 * low,
            area == m * (unit * unit),
    ;
    assert(area > 0) by (nonlinear_arith)
        requires
            area == m * (unit * unit),
            m > 0,
            unit > 0,
    ;
    assert((share * p) * tenfold == 10 * (p * (share * margin))) by (nonlinear_arith)
        requires
            tenfold == 10 * margin,
    ;
    assert(10 * (p * (c * (unit * unit))) == 11 * area) by (nonlinear_arith)
        requires
            10 * (c * p) == 11 * m,
            area == m * (unit * unit),
    ;
    let (left, right) = (c * (unit * unit), share * margin);
    assert(0x3f_ffff_ffff_ffff * (p * left) <= 0x40_0000_0000_0000 * (p * right));
    assert(0x3f_ffff_ffff_ffff * left <= 0x40_0000_0000_0000 * right) by (nonlinear_arith)
        requires
            0x3f_ffff_ffff_ffff * (p * left) <= 0x40_0000_0000_0000 * (p * right),
            p > 0,
    ;
}

/// The error margin is one tenth: for buckets of up to `2^46` credits, a
/// request forces a sync exactly when it takes more than eleven tenths of the
/// node's share. Rounding plays no part in that.
pub proof fn law_margin_is_one_tenth(
    max_bucket_credits: u64,
    credits_to_be_used: u64,
    participants: u64,
)
    requires
        participants > 1,
        max_bucket_credits <= 0x4000_0000_0000,
    ensures
        share::needs_sync(max_bucket_credits, credits_to_be_used, participants) <==> 10 * (
        credits_to_be_used * participants) > 11 * max_bucket_credits,
{
    let (c, p, m) = (credits_to_be_used as int, participants as int, max_bucket_credits as int);
    let unit = binary64::one_in_units();
    let used = binary64::nearest(c, 1).units();
    let allowed = share::allowed_share(max_bucket_credits, participants).units();
    lemma_units_nonnegative(share::allowed_share(max_bucket_credits, participants));
    if c > 0 {
        lemma_unit_is_large();
        lemma_integer_bounds(credits_to_be_used);
        if m > 0 {
            lemma_allowed_share_is_close(max_bucket_credits, participants);
            lemma_comparison_scales(c, p, m, unit, used, allowed);
            let (x, y) = ((c * p) * unit, m * unit);
            let need = c * p;
            if 10 * need > 11 * m {
                assert(10 * x >= 11 * y + unit) by (nonlinear_arith)
                    requires
                        10 * need >= 11 * m + 1,
                        x == need * unit,
                        y == m * unit,
                        unit > 0,
                ;
            }
            if 10 * need < 11 * m {
                assert(10 * x <= 11 * y - unit) by (nonlinear_arith)
                    requires
                        10 * need <= 11 * m - 1,
                        x == need * unit,
                        y == m * unit,
                        unit > 0,
                ;
            }
            if 10 * need == 11 * m {
                lemma_exact_share_is_allowed(max_bucket_credits, credits_to_be_used, participants);
            }
            assert(y <= 0x4000_0000_0000 * unit) by (nonlinear_arith)
                requires
                    m <= 0x4000_0000_0000,
                    y == m * unit,
                    unit > 0,
            ;
        } else {
            lemma_nothing_to_share(participants);
            assert(c * p > 0) by (nonlinear_arith)
                requires
                    c > 0,
                    p > 0,
            ;
        }
    } else {
        assert(c * p == 0) by (nonlinear_arith)
            requires
                c == 0,
        ;
        assert(binary64::zero().units() == 0);
    }
}

/// A request that forces no sync would do no harm if every node got one like
/// it: all of them together take no more than eleven tenths of the bucket. For
/// buckets of more than `2^46` credits, rounding adds at most seven parts in
/// `2^53 - 1` to that.
pub proof fn law_same_request_everywhere_stays_in_margin(
    max_bucket_credits: u64,
    credits_to_be_used: u64,
    participants: u64,
)
    requires
        participants > 1,
        !share::needs_sync(max_bucket_credits, credits_to_be_used, participants),
    ensures
        0x1f_ffff_ffff_ffff * (10 * (credits_to_be_used * participants)) <= 0x20_0000_0000_0006 * (
        11 * max_bucket_credits),
        max_bucket_credits <= 0x4000_0000_0000 ==> 10 * (credits_to_be_used * participants) <= 11
            * max_bucket_credits,
{
    let (c, p, m) = (credits_to_be_used as int, participants as int, max_bucket_credits as int);
    let unit = binary64::one_in_units();
    let used = binary64::nearest(c, 1).units();
    let allowed = share::allowed_share(max_bucket_credits, participants).units();
    if c > 0 {
        lemma_unit_is_large();
        lemma_integer_bounds(credits_to_be_used);
        if m > 0 {
            lemma_allowed_share_is_close(max_bucket_credits, participants);
            lemma_comparison_scales(c, p, m, unit, used, allowed);
            let need = c * p;
            assert(0x1f_ffff_ffff_ffff * (10 * need) <= 0x20_0000_0000_0006 * (11 * m))
                by (nonlinear_arith)
                requires
                    0x1f_ffff_ffff_ffff * (10 * (need * unit)) <= 0x20_0000_0000_0006 * (11 * (m
                        * unit)),
                    unit > 0,
            ;
        } else {
            lemma_nothing_to_share(participants);
        }
    } else {
        assert(c * p == 0) by (nonlinear_arith)
            requires
                c == 0,
        ;
    }
    if m <= 0x4000_0000_0000 {
        law_margin_is_one_tenth(max_bucket_credits, credits_to_be_used, participants);
    }
}

/// A request that stays below eleven tenths of the node's share by a few parts
/// in `2^53` forces no sync, however large the bucket is.
pub proof fn law_within_the_margin_needs_no_sync(
    max_bucket_credits: u64,
    credits_to_be_used: u64,
    participants: u64,
)
    requires
        participants > 0,
        0x20_0000_0000_0001 * (10 * (credits_to_be_used * participants)) <= 0x1f_ffff_ffff_fffb * (
        11 * max_bucket_credits),
    ensures
        !share::needs_sync(max_bucket_credits, credits_to_be_used, participants),
{
    let (c, p, m) = (credits_to_be_used as int, participants as int, max_bucket_credits as int);
    let unit = binary64::one_in_units();
    let used = binary64::nearest(c, 1).units();
    let allowed = share::allowed_share(max_bucket_credits, participants).units();
    lemma_units_nonnegative(share::allowed_share(max_bucket_credits, participants));
    if c > 0 {
        let need = c * p;
        assert(need > 0) by (nonlinear_arith)
            requires
                need == c * p,
                c > 0,
                p > 0,
        ;
        lemma_unit_is_large();
        lemma_integer_bounds(credits_to_be_used);
        lemma_allowed_share_is_close(max_bucket_credits, participants);
        lemma_comparison_scales(c, p, m, unit, used, allowed);
        assert(0x20_0000_0000_0001 * (10 * (need * unit)) <= 0x1f_ffff_ffff_fffb * (11 * (m
            * unit))) by (nonlinear_arith)
            requires
                0x20_0000_0000_0001 * (10 * need) <= 0x1f_ffff_ffff_fffb * (11 * m),
                unit > 0,
        ;
    } else {
        assert(binary64::zero().units() == 0);
    }
}

/// The decision, step by step: the bucket is divided by the number of nodes, the
/// share is multiplied by one and a tenth, and the request is compared with
/// that. Every number along the way is rounded to the nearest double.
pub proof fn law_sync_decision_in_doubles(
    max_bucket_credits: u64,
    credits_to_be_used: u64,
    participants: u64,
)
    requires
        participants > 0,
    ensures
        ({
            let one = pow2(1075) as int;
            let tenth = binary64::nearest(1, 10).units();
            let margin = binary64::nearest(one + tenth, one).units();
            let max = binary64::nearest(max_bucket_credits as int, 1).units();
            let nodes = binary64::nearest(participants as int, 1).units();
            let share = binary64::nearest(max, nodes).units();
            let allowed = binary64::nearest(share * margin, one * one).units();
            share::needs_sync(max_bucket_credits, credits_to_be_used, participants)
                <==> participants != 1 && binary64::nearest(
                credits_to_be_used as int,
                1,
            ).units() > allowed
        }),
{
}

/// An empty bucket has nothing to share.
proof fn lemma_nothing_to_share(participants: u64)
    ensures
        share::allowed_share(0, participants).units() == 0,
{
    assert(binary64::zero().units() == 0);
    assert(share::fair_share(0, participants).units() == 0);
    assert(0 * binary64::one_and_a_tenth().units() == 0);
}

/// The more a request takes, the smaller the bucket and the more nodes share
/// it, the sooner a sync is due: what forces a sync still does when any of the
/// three goes that way.
pub proof fn law_sync_is_monotonic(
    max_bucket_credits: u64,
    credits_to_be_used: u64,
    participants: u64,
    smaller_max: u64,
    more_credits: u64,
    more_participants: u64,
)
    requires
        participants > 0,
        smaller_max <= max_bucket_credits,
        credits_to_be_used <= more_credits,
        participants <= more_participants,
        share::needs_sync(max_bucket_credits, credits_to_be_used, participants),
    ensures
        share::needs_sync(smaller_max, more_credits, more_participants),
{
    let used = binary64::nearest(credits_to_be_used as int, 1).units();
    let used_more = binary64::nearest(more_credits as int, 1).units();
    lemma_units_nonnegative(share::allowed_share(max_bucket_credits, participants));
    assert(binary64::zero().units() == 0);
    lemma_integer_bounds(credits_to_be_used);
    lemma_integer_bounds(more_credits);
    binary64::lemma_nearest_is_monotonic(credits_to_be_used as int, 1, more_credits as int, 1);
    if smaller_max == 0 {
        lemma_nothing_to_share(more_participants);
    } else {
        let unit = binary64::one_in_units();
        lemma_unit_is_large();
        let max = binary64::nearest(max_bucket_credits as int, 1).units();
        let less = binary64::nearest(smaller_max as int, 1).units();
        let nodes = binary64::nearest(participants as int, 1).units();
        let more = binary64::nearest(more_participants as int, 1).units();
        lemma_integer_bounds(max_bucket_credits);
        lemma_integer_bounds(smaller_max);
        lemma_integer_bounds(participants);
        lemma_integer_bounds(more_participants);
        binary64::lemma_nearest_is_monotonic(smaller_max as int, 1, max_bucket_credits as int, 1);
        binary64::lemma_nearest_is_monotonic(participants as int, 1, more_participants as int, 1);
        lemma_fair_share_bounds(max_bucket_credits, participants);
        lemma_fair_share_bounds(smaller_max, more_participants);
        assert(less * nodes <= max * more) by (nonlinear_arith)
            requires
                0 < less <= max,
                0 < nodes <= more,
        ;
        binary64::lemma_nearest_is_monotonic(less, more, max, nodes);
        lemma_allowed_share_bounds(max_bucket_credits, participants);
        lemma_allowed_share_bounds(smaller_max, more_participants);
        let share = share::fair_share(max_bucket_credits, participants).units();
        let smaller = share::fair_share(smaller_max, more_participants).units();
        let margin = binary64::one_and_a_tenth().units();
        lemma_margin_bounds();
        assert((smaller * margin) * (unit * unit) <= (share * margin) * (unit * unit))
            by (nonlinear_arith)
            requires
                smaller <= share,
                margin >= 0,
                unit >= 0,
        ;
        binary64::lemma_nearest_is_monotonic(
            smaller * margin,
            unit * unit,
            share * margin,
            unit * unit,
        );
    }
}

} // verus!
