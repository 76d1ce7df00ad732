//! How far the work has got: the percentage that is shown, and when it is shown.

use crate::ieee754::{
    add_double, difference, distance, divide_double, double_of, is_less, is_moderate,
    is_negative, lemma_count_bounds, lemma_nearest_exact, lemma_nearest_ordered,
    lemma_power_magnitude, lemma_rounded_bound, lemma_rounded_double, lemma_rounded_ordered,
    lemma_rounding_error, lemma_rounding_error_below, lemma_signed_units, lemma_sum_ordered,
    lemma_sum_units, lemma_units_bound, lemma_units_ordered, lemma_whole, magnitude,
    multiply_double, nearest, negated, product, quotient, rounded, shift_of, significand_of,
    subtract_double, sum, units, units_of, HIDDEN, ONE_SHIFT, SIGN,
};
use vstd::arithmetic::div_mod::*;
use vstd::arithmetic::mul::*;
use vstd::arithmetic::power2::*;
use vstd::prelude::*;

verus! {

/// The bits of the double 25: the percentage at which the elements are begun.
pub const ELEMENTS_START: u64 = 0x4039_0000_0000_0000;

/// The bits of the double 45: the share of the elements.
pub const ELEMENTS_SHARE: u64 = 0x4046_8000_0000_0000;

/// The bits of the double 70: the percentage at which the ground is begun.
pub const GROUND_START: u64 = 0x4051_8000_0000_0000;

/// The bits of the double 20: the share of the ground.
pub const GROUND_SHARE: u64 = 0x4034_0000_0000_0000;

/// The bits of the double 90: the percentage at which saving is begun.
pub const SAVE_START: u64 = 0x4056_8000_0000_0000;

/// The bits of the double 9: the share of saving.
pub const SAVE_SHARE: u64 = 0x4022_0000_0000_0000;

/// The bits of the double 99: the percentage at which the world is finished off.
pub const FINISH_START: u64 = 0x4058_c000_0000_0000;

/// The bits of the double 0.25: by more than this the percentage of the elements has to
/// have changed to be shown again.
pub const SMALLEST_CHANGE: u64 = 0x3fd0_0000_0000_0000;

/// The number of parts of the ground after each of which the percentage is shown.
pub const GROUND_REPORTS: u64 = 80;

/// The number of parts of saving after each of which the percentage is shown.
pub const SAVE_REPORTS: u64 = 10;

/// The percentage when `done` of `total` parts of some work are done, in double
/// precision. The work begins at `start` and has the given share.
pub open spec fn percentage(start: u64, share: u64, done: nat, total: nat) -> u64 {
    sum(start, product(quotient(nearest(done), nearest(total)), share))
}

/// The number of parts from one report to the next, when there are to be about `reports`.
pub open spec fn report_interval(total: nat, reports: nat) -> nat {
    if total / reports == 0 {
        1
    } else {
        total / reports
    }
}

/// The percentage is shown when `done` of `total` parts are done.
pub open spec fn report_due(done: nat, total: nat, reports: nat) -> bool {
    done % report_interval(total, reports) == 0 || done == total
}

/// A percentage is far enough from the one that was shown last.
pub open spec fn has_changed(percent: u64, shown: u64) -> bool {
    units(SMALLEST_CHANGE) < units((difference(percent, shown) % SIGN) as u64)
}

/// The ratio of two counts is not negative and far from the largest doubles.
proof fn lemma_ratio(done: u64, total: u64)
    requires
        total > 0,
    ensures
        ({
            let ratio = quotient(nearest(done as nat), nearest(total as nat));
            &&& !is_negative(ratio)
            &&& magnitude(ratio) <= 1087 * HIDDEN
            &&& magnitude(ratio) == rounded(
                distance(units(nearest(done as nat))) * pow2(ONE_SHIFT as nat),
                distance(units(nearest(total as nat))),
            )
        }),
{
    let one = pow2(ONE_SHIFT as nat);
    lemma_pow2_pos(ONE_SHIFT as nat);
    lemma_count_bounds(total);
    lemma_nearest_ordered(done, done);
    lemma_nearest_ordered(total, total);
    let n = distance(units(nearest(done as nat)));
    let d = distance(units(nearest(total as nat)));
    assert(n * one <= d * pow2(1138)) by {
        lemma_mul_inequality(n as int, pow2(1138) as int, one as int);
        lemma_mul_inequality(one as int, d as int, pow2(1138) as int);
        lemma_mul_is_commutative(pow2(1138) as int, one as int);
    }
    lemma_rounded_bound(n * one, d, 1087);
    lemma_signed_units(false, rounded(n * one, d));
}

/// A share of a ratio is far from the largest doubles.
proof fn lemma_part(ratio: u64, share: u64)
    requires
        magnitude(ratio) <= 1087 * HIDDEN,
        magnitude(share) <= 1031 * HIDDEN,
    ensures
        magnitude(product(ratio, share)) <= 1096 * HIDDEN,
        magnitude(product(ratio, share)) == rounded(
            distance(units(ratio)) * distance(units(share)),
            pow2(ONE_SHIFT as nat),
        ),
        is_negative(product(ratio, share)) == (is_negative(ratio) != is_negative(share)),
{
    let one = pow2(ONE_SHIFT as nat);
    lemma_pow2_pos(ONE_SHIFT as nat);
    lemma_units_bound(magnitude(ratio), 1087);
    lemma_units_bound(magnitude(share), 1031);
    lemma_pow2_adds(64, ONE_SHIFT as nat);
    lemma_pow2_adds(1082, 64);
    assert(distance(units(ratio)) * distance(units(share)) <= one * pow2(1146))
        by (nonlinear_arith)
        requires
            distance(units(ratio)) <= pow2(1138),
            distance(units(share)) <= pow2(1082),
            pow2(1138) == pow2(64) * one,
            pow2(1146) == pow2(1082) * pow2(64),
    ;
    lemma_rounded_bound(distance(units(ratio)) * distance(units(share)), one, 1095);
    lemma_signed_units(
        is_negative(ratio) != is_negative(share),
        rounded(distance(units(ratio)) * distance(units(share)), one),
    );
}

/// The percentage when `done` of `total` parts of some work are done.
pub fn percentage_of(start: u64, share: u64, done: u64, total: u64) -> (percent: u64)
    requires
        total > 0,
        magnitude(start) <= 1031 * HIDDEN,
        magnitude(share) <= 1031 * HIDDEN,
    ensures
        percent == percentage(start, share, done as nat, total as nat),
        is_moderate(percent),
{
    proof {
        let ratio = quotient(nearest(done as nat), nearest(total as nat));
        lemma_ratio(done, total);
        lemma_part(ratio, share);
        lemma_sum_units(start, product(ratio, share));
    }
    let ratio = divide_double(double_of(done), double_of(total));
    let part = multiply_double(ratio, share);
    add_double(start, part)
}

/// Whether the percentage is shown when `done` of `total` parts are done.
pub fn is_report_due(done: u64, total: u64, reports: u64) -> (due: bool)
    requires
        reports > 0,
    ensures
        due == report_due(done as nat, total as nat, reports as nat),
{
    let parts: u64 = total / reports;
    let interval: u64 = if parts == 0 {
        1
    } else {
        parts
    };
    done % interval == 0 || done == total
}

/// The progress of the elements.
pub struct ElementProgress {
    processed: u64,
    total: u64,
    shown: u64,
}

impl ElementProgress {
    #[verifier::type_invariant]
    spec fn consistent(self) -> bool {
        &&& self.processed <= self.total
        &&& is_moderate(self.shown)
    }

    /// The number of elements that are done.
    pub closed spec fn processed(self) -> nat {
        self.processed as nat
    }

    /// The number of elements.
    pub closed spec fn total(self) -> nat {
        self.total as nat
    }

    /// The percentage that was shown last.
    pub closed spec fn shown(self) -> u64 {
        self.shown
    }

    /// The progress when no element is done.
    pub fn new(total: u64) -> (progress: ElementProgress)
        ensures
            progress.processed() == 0,
            progress.total() == total,
            progress.shown() == ELEMENTS_START,
    {
        ElementProgress { processed: 0, total, shown: ELEMENTS_START }
    }

    /// Counts elements that are done. Gives the new percentage where it is to be shown.
    pub fn advance(&mut self, count: u64) -> (report: Option<u64>)
        requires
            count > 0,
            old(self).processed() + count <= old(self).total(),
        ensures
            final(self).total() == old(self).total(),
            final(self).processed() == old(self).processed() + count,
            ({
                let percent = percentage(
                    ELEMENTS_START,
                    ELEMENTS_SHARE,
                    final(self).processed(),
                    final(self).total(),
                );
                if has_changed(percent, old(self).shown()) {
                    report == Some(percent) && final(self).shown() == percent
                } else {
                    report is None && final(self).shown() == old(self).shown()
                }
            }),
    {
        proof {
            use_type_invariant(&*self);
        }
        let processed: u64 = self.processed + count;
        let percent = percentage_of(ELEMENTS_START, ELEMENTS_SHARE, processed, self.total);
        let change: u64 = subtract_double(percent, self.shown);
        self.processed = processed;
        if is_less(SMALLEST_CHANGE, change % SIGN) {
            self.shown = percent;
            Some(percent)
        } else {
            None
        }
    }
}

/// A ratio does not fall while its numerator grows.
proof fn lemma_ratio_ordered(earlier: u64, later: u64, total: u64)
    requires
        earlier <= later,
        total > 0,
    ensures
        0 <= units(quotient(nearest(earlier as nat), nearest(total as nat))) <= units(
            quotient(nearest(later as nat), nearest(total as nat)),
        ),
{
    let one = pow2(ONE_SHIFT as nat);
    lemma_pow2_pos(ONE_SHIFT as nat);
    lemma_ratio(earlier, total);
    lemma_ratio(later, total);
    lemma_count_bounds(total);
    lemma_nearest_ordered(earlier, later);
    let d = distance(units(nearest(total as nat)));
    let n1 = distance(units(nearest(earlier as nat)));
    let n2 = distance(units(nearest(later as nat)));
    lemma_mul_inequality(n1 as int, n2 as int, one as int);
    lemma_mul_inequality((n1 * one) as int, (n2 * one) as int, d as int);
    lemma_rounded_ordered(n1 * one, d, n2 * one, d);
    lemma_units_ordered(rounded(n2 * one, d), rounded(n1 * one, d));
}

/// The share of a ratio does not fall while the ratio grows.
proof fn lemma_part_ordered(low: u64, high: u64, share: u64)
    requires
        !is_negative(low),
        !is_negative(high),
        !is_negative(share),
        magnitude(low) <= 1087 * HIDDEN,
        magnitude(high) <= 1087 * HIDDEN,
        magnitude(share) <= 1031 * HIDDEN,
        units(low) <= units(high),
    ensures
        units(product(low, share)) <= units(product(high, share)),
{
    let one = pow2(ONE_SHIFT as nat);
    lemma_pow2_pos(ONE_SHIFT as nat);
    lemma_part(low, share);
    lemma_part(high, share);
    let s = distance(units(share));
    let n1 = distance(units(low)) * s;
    let n2 = distance(units(high)) * s;
    lemma_mul_inequality(units(low), units(high), s as int);
    lemma_mul_inequality(n1 as int, n2 as int, one as int);
    lemma_rounded_ordered(n1, one, n2, one);
    lemma_units_ordered(rounded(n2, one), rounded(n1, one));
}

/// The percentage never falls while the work goes on.
pub proof fn law_percentage_ordered(start: u64, share: u64, earlier: u64, later: u64, total: u64)
    requires
        earlier <= later,
        total > 0,
        !is_negative(share),
        magnitude(start) <= 1031 * HIDDEN,
        magnitude(share) <= 1031 * HIDDEN,
    ensures
        units(percentage(start, share, earlier as nat, total as nat)) <= units(
            percentage(start, share, later as nat, total as nat),
        ),
{
    let low = quotient(nearest(earlier as nat), nearest(total as nat));
    let high = quotient(nearest(later as nat), nearest(total as nat));
    lemma_ratio(earlier, total);
    lemma_ratio(later, total);
    lemma_ratio_ordered(earlier, later, total);
    lemma_part(low, share);
    lemma_part(high, share);
    lemma_part_ordered(low, high, share);
    lemma_sum_ordered(start, product(low, share), product(high, share));
}

/// Work that is done has added its share to the percentage.
pub proof fn law_percentage_at_end(start: u64, share: u64, total: u64)
    requires
        total > 0,
        !is_negative(share),
        magnitude(share) <= 1031 * HIDDEN,
    ensures
        percentage(start, share, total as nat, total as nat) == sum(start, share),
{
    let one = pow2(ONE_SHIFT as nat);
    lemma_pow2_pos(ONE_SHIFT as nat);
    lemma_count_bounds(total);
    lemma_nearest_ordered(total, total);
    let d = distance(units(nearest(total as nat)));
    let unit = (1023 * HIDDEN) as nat;
    lemma_power_magnitude(1023);
    lemma_rounded_double(unit);
    lemma_mul_is_commutative(d as int, one as int);
    lemma_rounded_ordered(d * one, d, one, 1);
    lemma_rounded_ordered(one, 1, d * one, d);
    let ratio = quotient(nearest(total as nat), nearest(total as nat));
    assert(magnitude(ratio) == unit && units(ratio) == one);
    let s = units_of(magnitude(share));
    lemma_rounded_double(magnitude(share));
    lemma_mul_is_commutative(one as int, s as int);
    lemma_rounded_ordered(one * s, one, s, 1);
    lemma_rounded_ordered(s, 1, one * s, one);
}

/// The sum of two integers is the double of their sum.
proof fn lemma_whole_sum(a: u64, b: u64, c: u64, x: nat, y: nat)
    requires
        !is_negative(a) && !is_negative(b) && !is_negative(c),
        x > 0,
        units_of(magnitude(a)) == x * pow2(ONE_SHIFT as nat),
        units_of(magnitude(b)) == y * pow2(ONE_SHIFT as nat),
        units_of(magnitude(c)) == (x + y) * pow2(ONE_SHIFT as nat),
    ensures
        sum(a, b) == c,
{
    let one = pow2(ONE_SHIFT as nat);
    lemma_pow2_pos(ONE_SHIFT as nat);
    lemma_mul_is_distributive_add_other_way(one as int, x as int, y as int);
    lemma_mul_strictly_positive(x as int, one as int);
    lemma_rounded_double(magnitude(c));
}

/// Each stage of the work ends at the percentage at which the next one begins, whatever
/// the number of its parts: the elements at that of the ground, the ground at that of
/// saving, and saving at that of finishing off.
pub proof fn law_stages_meet(elements: u64, chunks: u64, regions: u64)
    requires
        elements > 0,
        chunks > 0,
        regions > 0,
    ensures
        percentage(ELEMENTS_START, ELEMENTS_SHARE, elements as nat, elements as nat)
            == GROUND_START,
        percentage(GROUND_START, GROUND_SHARE, chunks as nat, chunks as nat) == SAVE_START,
        percentage(SAVE_START, SAVE_SHARE, regions as nat, regions as nat) == FINISH_START,
{
    law_percentage_at_end(ELEMENTS_START, ELEMENTS_SHARE, elements);
    law_percentage_at_end(GROUND_START, GROUND_SHARE, chunks);
    law_percentage_at_end(SAVE_START, SAVE_SHARE, regions);
    lemma2_to64_rest();
    lemma_whole(magnitude(ELEMENTS_START), 25, 48);
    lemma_whole(magnitude(ELEMENTS_SHARE), 45, 47);
    lemma_whole(magnitude(GROUND_START), 70, 46);
    lemma_whole(magnitude(GROUND_SHARE), 20, 48);
    lemma_whole(magnitude(SAVE_START), 90, 46);
    lemma_whole(magnitude(SAVE_SHARE), 9, 49);
    lemma_whole(magnitude(FINISH_START), 99, 46);
    lemma_whole_sum(ELEMENTS_START, ELEMENTS_SHARE, GROUND_START, 25, 45);
    lemma_whole_sum(GROUND_START, GROUND_SHARE, SAVE_START, 70, 20);
    lemma_whole_sum(SAVE_START, SAVE_SHARE, FINISH_START, 90, 9);
}

/// Work that has not begun adds nothing to the percentage.
pub proof fn law_percentage_at_start(start: u64, share: u64, total: u64)
    requires
        total > 0,
        magnitude(start) <= 1031 * HIDDEN,
        magnitude(share) <= 1031 * HIDDEN,
    ensures
        units(percentage(start, share, 0, total as nat)) == units(start),
{
    let one = pow2(ONE_SHIFT as nat);
    lemma_pow2_pos(ONE_SHIFT as nat);
    lemma_ratio(0, total);
    lemma_count_bounds(total);
    lemma_nearest_exact(0);
    lemma_mul_by_zero_is_zero(one as int);
    lemma_zero_rounded(distance(units(nearest(total as nat))));
    lemma_zero_rounded(one);
    let ratio = quotient(nearest(0), nearest(total as nat));
    assert(units(ratio) == 0);
    lemma_part(ratio, share);
    lemma_mul_by_zero_is_zero(distance(units(share)) as int);
    let part = product(ratio, share);
    assert(units(part) == 0);
    lemma_sum_units(start, part);
    lemma_rounded_double(magnitude(start));
}

/// Zero is rounded to zero.
proof fn lemma_zero_rounded(d: nat)
    requires
        d > 0,
    ensures
        rounded(0, d) == 0,
        units_of(0) == 0,
{
    lemma_mul_by_zero_is_zero(pow2(shift_of(0)) as int);
    assert(significand_of(0) == 0);
    lemma_rounded_double(0);
    lemma_rounded_ordered(0, d, 0, 1);
    lemma_rounded_ordered(0, 1, 0, d);
}

/// The percentage is where the done parts of the work divide its share, but for one part in
/// two to the power of 50 and a few units.
pub proof fn law_percentage_even(start: u64, share: u64, done: u64, total: u64)
    requires
        done <= total < 2 * HIDDEN,
        total > 0,
        !is_negative(share),
        magnitude(start) <= 1031 * HIDDEN,
        magnitude(share) <= 1031 * HIDDEN,
    ensures
        ({
            let one = pow2(ONE_SHIFT as nat);
            let percent = units(percentage(start, share, done as nat, total as nat));
            let even = units(start) * total + units(share) * done;
            (distance(percent * total - even) * one) * 0x4_0000_0000_0000 <= total * ((units(share)
                + distance(units(start))) * one + (units(share) + one) * 0x4_0000_0000_0000)
        }),
{
    let one = pow2(ONE_SHIFT as nat);
    lemma_pow2_pos(ONE_SHIFT as nat);
    lemma_nearest_exact(done);
    lemma_nearest_exact(total);
    lemma_ratio(done, total);
    let ratio = quotient(nearest(done as nat), nearest(total as nat));
    let n = (done * one) as nat;
    lemma_mul_nonnegative(done as int, one as int);
    lemma_mul_strictly_positive(total as int, one as int);
    // the ratio is that of the counts themselves
    assert((n * one) * total == n * (total * one)) by (nonlinear_arith);
    lemma_rounded_ordered(n * one, (total * one) as nat, n, total as nat);
    lemma_rounded_ordered(n, total as nat, n * one, (total * one) as nat);
    let r = units(ratio);
    assert(r == units_of(rounded(n, total as nat)));
    lemma_rounding_error(n, total as nat);
    lemma_rounding_error_below(n, total as nat);
    lemma_part(ratio, share);
    let part = product(ratio, share);
    let s = units(share);
    let p = units(part);
    lemma_mul_nonnegative(r, s);
    assert(p == units_of(rounded((r * s) as nat, one)));
    lemma_rounding_error((r * s) as nat, one);
    lemma_rounding_error_below((r * s) as nat, one);
    let m = units(start);
    lemma_sum_units(start, part);
    lemma_rounding_error(distance(m + p), 1);
    lemma_rounding_error_below(distance(m + p), 1);
    let e = units(percentage(start, share, done as nat, total as nat));
    lemma_percentage_arithmetic(one as int, done as int, total as int, s, m, r, p, e);
}

/// The roundings of a percentage add up to little.
proof fn lemma_percentage_arithmetic(
    one: int,
    done: int,
    total: int,
    s: int,
    m: int,
    r: int,
    p: int,
    e: int,
)
    requires
        one > 0,
        0 <= done <= total,
        total > 0,
        0 <= s,
        0 <= r,
        0 <= p,
        (r * total) * 0x40_0000_0000_0000 <= (done * one) * 0x40_0000_0000_0002 + total
            * 0x20_0000_0000_0000,
        (done * one) * 0x40_0000_0000_0000 <= (r * total) * 0x40_0000_0000_0000 + (done * one) * 2
            + total * 0x20_0000_0000_0000,
        (p * one) * 0x40_0000_0000_0000 <= (r * s) * 0x40_0000_0000_0002 + one
            * 0x20_0000_0000_0000,
        (r * s) * 0x40_0000_0000_0000 <= (p * one) * 0x40_0000_0000_0000 + (r * s) * 2 + one
            * 0x20_0000_0000_0000,
        distance(e) * 0x20_0000_0000_0000 <= distance(m + p) * 0x20_0000_0000_0001,
        distance(m + p) * 0x20_0000_0000_0000 <= distance(e) * 0x20_0000_0000_0000 + distance(
            m + p,
        ),
        m + p >= 0 ==> e >= 0,
        m + p <= 0 ==> e <= 0,
    ensures
        (distance(e * total - (m * total + s * done)) * one) * 0x4_0000_0000_0000 <= total * ((s
            + distance(m)) * one + (s + one) * 0x4_0000_0000_0000),
{
    let rt = r * total;
    let d1 = done * one;
    let a = rt * s;
    let c = d1 * s;
    let ts = total * s;
    assert(a * 0x40_0000_0000_0000 <= c * 0x40_0000_0000_0002 + ts * 0x20_0000_0000_0000 && c
        * 0x40_0000_0000_0000 <= a * 0x40_0000_0000_0000 + c * 2 + ts * 0x20_0000_0000_0000)
        by (nonlinear_arith)
        requires
            rt * 0x40_0000_0000_0000 <= d1 * 0x40_0000_0000_0002 + total * 0x20_0000_0000_0000,
            d1 * 0x40_0000_0000_0000 <= rt * 0x40_0000_0000_0000 + d1 * 2 + total
                * 0x20_0000_0000_0000,
            s >= 0,
            a == rt * s,
            c == d1 * s,
            ts == total * s,
    ;
    let p1 = p * one;
    let rs = r * s;
    let w = p1 * total;
    let ot = one * total;
    assert(a == rs * total) by (nonlinear_arith)
        requires
            a == rt * s,
            rt == r * total,
            rs == r * s,
    ;
    assert(w * 0x40_0000_0000_0000 <= a * 0x40_0000_0000_0002 + ot * 0x20_0000_0000_0000 && a
        * 0x40_0000_0000_0000 <= w * 0x40_0000_0000_0000 + a * 2 + ot * 0x20_0000_0000_0000)
        by (nonlinear_arith)
        requires
            p1 * 0x40_0000_0000_0000 <= rs * 0x40_0000_0000_0002 + one * 0x20_0000_0000_0000,
            rs * 0x40_0000_0000_0000 <= p1 * 0x40_0000_0000_0000 + rs * 2 + one
                * 0x20_0000_0000_0000,
            total >= 0,
            a == rs * total,
            w == p1 * total,
            ot == one * total,
    ;
    let q = m + p;
    let qo = q * ot;
    let eo = e * ot;
    let mo = m * ot;
    assert(qo == mo + w) by (nonlinear_arith)
        requires
            q == m + p,
            qo == q * ot,
            mo == m * ot,
            w == p1 * total,
            p1 == p * one,
            ot == one * total,
    ;
    assert(ot > 0) by (nonlinear_arith)
        requires
            one > 0,
            total > 0,
            ot == one * total,
    ;
    assert(q >= 0 ==> eo * 0x20_0000_0000_0000 <= qo * 0x20_0000_0000_0001 && qo
        * 0x20_0000_0000_0000 <= eo * 0x20_0000_0000_0000 + qo && qo >= 0) by (nonlinear_arith)
        requires
            q >= 0 ==> e * 0x20_0000_0000_0000 <= q * 0x20_0000_0000_0001 && q
                * 0x20_0000_0000_0000 <= e * 0x20_0000_0000_0000 + q,
            ot > 0,
            eo == e * ot,
            qo == q * ot,
    ;
    assert(q < 0 ==> -eo * 0x20_0000_0000_0000 <= -qo * 0x20_0000_0000_0001 && -qo
        * 0x20_0000_0000_0000 <= -eo * 0x20_0000_0000_0000 - qo && qo <= 0) by (nonlinear_arith)
        requires
            q < 0 ==> -e * 0x20_0000_0000_0000 <= -q * 0x20_0000_0000_0001 && -q
                * 0x20_0000_0000_0000 <= -e * 0x20_0000_0000_0000 - q,
            ot > 0,
            eo == e * ot,
            qo == q * ot,
    ;
    let so = s * ot;
    let dm = distance(m) * ot;
    assert(0 <= c <= so && 0 <= a && 0 <= w && 0 <= ts && -dm <= mo <= dm && dm >= 0)
        by (nonlinear_arith)
        requires
            0 <= done <= total,
            one > 0,
            0 <= s,
            0 <= r,
            0 <= p,
            c == (done * one) * s,
            so == s * ot,
            ot == one * total,
            a == (r * total) * s,
            w == (p * one) * total,
            ts == total * s,
            mo == m * ot,
            dm == distance(m) * ot,
            -(distance(m) as int) <= m <= distance(m),
    ;
    let gap = e * total - (m * total + s * done);
    assert(gap * one == eo - mo - c) by (nonlinear_arith)
        requires
            gap == e * total - (m * total + s * done),
            eo == e * ot,
            mo == m * ot,
            ot == one * total,
            c == (done * one) * s,
    ;
    assert(distance(gap) * one == distance(eo - mo - c)) by (nonlinear_arith)
        requires
            gap * one == eo - mo - c,
            one > 0,
            distance(gap) == (if gap < 0 {
                -gap
            } else {
                gap
            }),
            distance(eo - mo - c) == (if eo - mo - c < 0 {
                -(eo - mo - c)
            } else {
                eo - mo - c
            }),
    ;
    assert(total * ((s + distance(m)) * one + (s + one) * 0x4_0000_0000_0000) == so + dm + (ts + ot)
        * 0x4_0000_0000_0000) by (nonlinear_arith)
        requires
            so == s * ot,
            dm == distance(m) * ot,
            ts == total * s,
            ot == one * total,
    ;
}

/// Reports come evenly: the first is due when the total divided by their number is done,
/// after each the next is due the same number of parts later, and one is due at the end. If
/// there are fewer than two parts for each report, every part is reported.
pub proof fn law_reports_even(done: nat, total: nat, reports: nat)
    requires
        reports > 0,
        0 < done <= total,
    ensures
        report_due(total, total, reports),
        total < 2 * reports ==> report_due(done, total, reports),
        done < total / reports && done < total ==> !report_due(done, total, reports),
        done == total / reports ==> report_due(done, total, reports),
        total >= reports && done + total / reports < total ==> (report_due(done, total, reports)
            <==> report_due(done + total / reports, total, reports)),
{
    let step = total / reports;
    lemma_fundamental_div_mod(total as int, reports as int);
    if total < 2 * reports {
        assert(step < 2) by (nonlinear_arith)
            requires
                total == reports * step + total % reports,
                0 <= total % reports,
                total < 2 * reports,
                reports > 0,
        ;
        assert(done as int % 1 == 0);
    }
    if total >= reports {
        assert(step >= 1) by (nonlinear_arith)
            requires
                total == reports * step + total % reports,
                0 <= total % reports < reports,
                total >= reports,
        ;
        if done < step {
            lemma_small_mod(done, step);
        }
        lemma_mod_add_multiples_vanish(done as int, step as int);
        lemma_mod_self_0(step as int);
        assert((step + done) % step == done % step);
    }
}

/// A percentage is shown only if it is more than a quarter away from the one that was shown
/// last, and always if it is farther away than the next double.
pub proof fn law_changes_shown(percent: u64, shown: u64)
    requires
        magnitude(percent) <= 1096 * HIDDEN,
        magnitude(shown) <= 1096 * HIDDEN,
    ensures
        ({
            let change = distance(units(percent) - units(shown));
            &&& has_changed(percent, shown) ==> change > units(SMALLEST_CHANGE)
            &&& change >= units((SMALLEST_CHANGE + 1) as u64) ==> has_changed(percent, shown)
            &&& units(SMALLEST_CHANGE) * 4 == pow2(ONE_SHIFT as nat)
        }),
{
    assert(magnitude(negated(shown)) == magnitude(shown));
    assert(units(negated(shown)) == -units(shown));
    let exact = units(percent) - units(shown);
    lemma_sum_units(percent, negated(shown));
    let made = difference(percent, shown);
    assert(distance(units(made)) == units_of(rounded(distance(exact), 1)));
    assert(units((made % SIGN) as u64) == units_of(magnitude(made)));
    lemma_rounded_double(magnitude(SMALLEST_CHANGE));
    let above = (SMALLEST_CHANGE + 1) as u64;
    lemma_rounded_double(magnitude(above));
    lemma_units_ordered(magnitude(SMALLEST_CHANGE), magnitude(above));
    lemma_units_ordered(magnitude(SMALLEST_CHANGE), magnitude(made));
    lemma_units_ordered(magnitude(above), magnitude(made));
    lemma_rounded_double(magnitude(made));
    if distance(exact) <= units_of(magnitude(SMALLEST_CHANGE)) {
        lemma_rounded_ordered(distance(exact), 1, units_of(magnitude(SMALLEST_CHANGE)), 1);
        lemma_units_ordered(
            rounded(distance(exact), 1),
            magnitude(SMALLEST_CHANGE),
        );
    }
    if distance(exact) >= units_of(magnitude(above)) {
        lemma_rounded_ordered(units_of(magnitude(above)), 1, distance(exact), 1);
        lemma_units_ordered(magnitude(above), rounded(distance(exact), 1));
    }
    lemma_power_magnitude(1021);
    lemma_pow2_unfold(1074);
    lemma_pow2_unfold(1073);
}

} // verus!
