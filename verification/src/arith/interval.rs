//! The interval arithmetic that encoder and decoder share.
//!
//! Both sides keep an interval `[low, high]` of code values.  A symbol
//! narrows the interval to the part that its range takes of it; the interval
//! is then widened again by doubling, one bit of code per doubling, until it
//! covers more than a quarter of the code space.

use vstd::prelude::*;
use crate::arith::model::{Prob, MAX_FREQ};

verus! {

/// The upper half of the code space starts here.
pub const ONE_HALF: u64 = 0x8000_0000;

/// The second quarter of the code space starts here.
pub const ONE_FOURTH: u64 = 0x4000_0000;

/// The last quarter of the code space starts here.
pub const THREE_FOURTHS: u64 = 0xC000_0000;

/// The largest code value.
pub const MAX_CODE: u64 = 0xffff_ffff;

/// The interval lies within the code space.
pub open spec fn interval_ok(low: int, high: int) -> bool {
    0 <= low <= high <= MAX_CODE
}

/// The interval lies within the code space and covers more than a quarter
/// of it, as it does whenever a symbol is about to be coded.
pub open spec fn normalized(low: int, high: int) -> bool {
    interval_ok(low, high) && high - low >= ONE_FOURTH
}

/// The lower end of the interval after narrowing to a range that starts at
/// the cumulative count `cum`.
pub open spec fn narrowed_low(low: int, high: int, cum: int, total: int) -> int {
    low + ((high - low + 1) * cum) / total
}

/// The upper end of the interval after narrowing to a range that ends at the
/// cumulative count `cum`.
pub open spec fn narrowed_high(low: int, high: int, cum: int, total: int) -> int {
    low + ((high - low + 1) * cum) / total - 1
}

/// The cumulative count that the code value `value` stands for within the
/// interval.
pub open spec fn scaled_count(low: int, high: int, value: int, total: int) -> int {
    ((value - low + 1) * total - 1) / (high - low + 1)
}

/// Which doubling step applies to an interval.
pub enum Step {
    /// The interval lies in the lower half of the code space.
    Lower,
    /// The interval lies in the upper half.
    Upper,
    /// The interval lies in the middle half, across the middle.
    Middle,
    /// The interval covers more than a quarter: no step applies.
    Done,
}

/// The doubling step that applies to the interval.
pub open spec fn step_of(low: int, high: int) -> Step {
    if high < ONE_HALF {
        Step::Lower
    } else if low >= ONE_HALF {
        Step::Upper
    } else if low >= ONE_FOURTH && high < THREE_FOURTHS {
        Step::Middle
    } else {
        Step::Done
    }
}

/// What a doubling step subtracts from the code values before it doubles
/// them.
pub open spec fn step_offset(step: Step) -> int {
    match step {
        Step::Lower => 0,
        Step::Upper => ONE_HALF as int,
        Step::Middle => ONE_FOURTH as int,
        Step::Done => 0,
    }
}

/// The lower end of the interval after a doubling step.
pub open spec fn doubled_low(low: int, step: Step) -> int {
    2 * (low - step_offset(step))
}

/// The upper end of the interval after a doubling step.
pub open spec fn doubled_high(high: int, step: Step) -> int {
    2 * (high - step_offset(step)) + 1
}

/// A doubling step keeps the interval within the code space and doubles its
/// size; an interval to which no step applies is normalized.
pub proof fn lemma_step(low: int, high: int)
    requires
        interval_ok(low, high),
    ensures
        step_of(low, high) != Step::Done ==> interval_ok(
            doubled_low(low, step_of(low, high)),
            doubled_high(high, step_of(low, high)),
        ) && doubled_high(high, step_of(low, high)) - doubled_low(low, step_of(low, high)) == 2
            * (high - low) + 1,
        step_of(low, high) == Step::Done ==> normalized(low, high),
{
}

/// Dividing by a positive number rounds down.
pub proof fn lemma_floor(x: int, d: int)
    requires
        d > 0,
    ensures
        d * (x / d) <= x < d * (x / d) + d,
{
    vstd::arithmetic::div_mod::lemma_fundamental_div_mod(x, d);
    vstd::arithmetic::div_mod::lemma_mod_bound(x, d);
}

/// A quotient lies below a bound whose product with the divisor lies above
/// the dividend, and at or above one whose product lies at or below it.
pub proof fn lemma_quotient_bounds(x: int, d: int, q: int)
    requires
        d > 0,
    ensures
        x < d * q ==> x / d < q,
        d * q <= x ==> q <= x / d,
{
    lemma_floor(x, d);
    if x < d * q && x / d >= q {
        assert(d * (x / d) >= d * q) by (nonlinear_arith)
            requires
                d > 0,
                x / d >= q,
        ;
    }
    if d * q <= x && q > x / d {
        assert(d * q >= d * (x / d) + d) by (nonlinear_arith)
            requires
                d > 0,
                q >= x / d + 1,
        ;
    }
}

/// Narrowing a normalized interval to a nonempty range gives a nonempty
/// interval within the old one, and a smaller one where the range is not
/// the whole.
pub proof fn lemma_narrow(low: int, high: int, lc: int, hc: int, total: int)
    requires
        normalized(low, high),
        0 <= lc < hc <= total <= MAX_FREQ,
    ensures
        low <= narrowed_low(low, high, lc, total) <= narrowed_high(low, high, hc, total) <= high,
        hc - lc < total ==> narrowed_high(low, high, hc, total) - narrowed_low(
            low,
            high,
            lc,
            total,
        ) < high - low,
{
    let range = high - low + 1;
    let a = range * hc;
    let b = range * lc;
    lemma_floor(a, total);
    lemma_floor(b, total);
    assert(b >= 0) by (nonlinear_arith)
        requires
            b == range * lc,
            range >= 0,
            lc >= 0,
    ;
    lemma_quotient_bounds(b, total, 0);
    assert(a - b >= range) by (nonlinear_arith)
        requires
            a == range * hc,
            b == range * lc,
            hc - lc >= 1,
            range >= 0,
    ;
    assert(a <= range * total) by (nonlinear_arith)
        requires
            a == range * hc,
            hc <= total,
            range >= 0,
    ;
    lemma_quotient_bounds(a, total, range + 1);
    assert(total * (range + 1) == range * total + total) by (nonlinear_arith);
    lemma_quotient_bounds(a, total, b / total + 1);
    assert(total * (b / total + 1) == total * (b / total) + total) by (nonlinear_arith);
    if hc - lc < total {
        assert(a - b <= range * total - range) by (nonlinear_arith)
            requires
                a == range * hc,
                b == range * lc,
                hc - lc <= total - 1,
                range >= 0,
        ;
        assert(total * (a / total - b / total) == total * (a / total) - total * (b / total))
            by (nonlinear_arith);
        assert(total * (a / total - b / total) < total * range) by (nonlinear_arith)
            requires
                total * (a / total - b / total) < a - b + total,
                a - b <= range * total - range,
                range > total,
        ;
        assert(a / total - b / total < range) by (nonlinear_arith)
            requires
                total * (a / total - b / total) < total * range,
                total > 0,
        ;
    }
}

/// A code value within the interval stands for a cumulative count below the
/// total, and lies within the interval narrowed to any range that holds
/// that count.
pub proof fn lemma_count_to_interval(
    low: int,
    high: int,
    value: int,
    lc: int,
    hc: int,
    total: int,
)
    requires
        normalized(low, high),
        low <= value <= high,
        0 < total <= MAX_FREQ,
        0 <= lc < hc <= total,
    ensures
        0 <= scaled_count(low, high, value, total) < total,
        lc <= scaled_count(low, high, value, total) < hc ==> narrowed_low(low, high, lc, total)
            <= value <= narrowed_high(low, high, hc, total),
{
    let range = high - low + 1;
    let v = value - low;
    let x = (v + 1) * total - 1;
    let count = x / range;
    lemma_floor(x, range);
    assert(x >= 0) by (nonlinear_arith)
        requires
            x == (v + 1) * total - 1,
            v >= 0,
            total >= 1,
    ;
    lemma_quotient_bounds(x, range, 0);
    assert(x < range * total) by (nonlinear_arith)
        requires
            x == (v + 1) * total - 1,
            v + 1 <= range,
            total >= 1,
    ;
    lemma_quotient_bounds(x, range, total);
    if lc <= count < hc {
        let a = range * hc;
        let b = range * lc;
        lemma_floor(a, total);
        lemma_floor(b, total);
        // From below: the range starts at or below the count.
        assert(b <= x) by (nonlinear_arith)
            requires
                b == range * lc,
                lc <= count,
                range * count <= x,
                range > 0,
        ;
        assert(b / total <= v) by (nonlinear_arith)
            requires
                total * (b / total) <= b,
                b <= (v + 1) * total - 1,
                total > 0,
        ;
        // From above: the range ends above the count.
        assert(x < a) by (nonlinear_arith)
            requires
                a == range * hc,
                count + 1 <= hc,
                x < range * count + range,
                range > 0,
        ;
        assert(total * (v + 1) <= a) by (nonlinear_arith)
            requires
                x == (v + 1) * total - 1,
                x < a,
        ;
        lemma_quotient_bounds(a, total, v + 1);
    }
}

/// A code value within the interval narrowed to a range stands for a
/// cumulative count within that range.
pub proof fn lemma_interval_to_count(
    low: int,
    high: int,
    value: int,
    lc: int,
    hc: int,
    total: int,
)
    requires
        normalized(low, high),
        0 < total <= MAX_FREQ,
        0 <= lc < hc <= total,
        narrowed_low(low, high, lc, total) <= value <= narrowed_high(low, high, hc, total),
    ensures
        lc <= scaled_count(low, high, value, total) < hc,
{
    let range = high - low + 1;
    let v = value - low;
    let x = (v + 1) * total - 1;
    let a = range * hc;
    let b = range * lc;
    lemma_floor(a, total);
    lemma_floor(b, total);
    assert(b <= x) by (nonlinear_arith)
        requires
            x == (v + 1) * total - 1,
            b < total * (b / total) + total,
            b / total <= v,
            total > 0,
    ;
    assert(range * lc <= x);
    lemma_quotient_bounds(x, range, lc);
    assert(x < a) by (nonlinear_arith)
        requires
            x == (v + 1) * total - 1,
            total * (a / total) <= a,
            v + 1 <= a / total,
            total > 0,
    ;
    lemma_quotient_bounds(x, range, hc);
}

/// Narrow the interval to the range `p`.
pub fn narrow(low: u64, high: u64, p: &Prob) -> (r: (u64, u64))
    requires
        normalized(low as int, high as int),
        p.low < p.high <= p.total <= MAX_FREQ,
    ensures
        r.0 == narrowed_low(low as int, high as int, p.low as int, p.total as int),
        r.1 == narrowed_high(low as int, high as int, p.high as int, p.total as int),
        low <= r.0 <= r.1 <= high,
{
    proof {
        lemma_narrow(low as int, high as int, p.low as int, p.high as int, p.total as int);
        assert((high - low + 1) * p.high <= 0x1_0000_0000 * 0x3fff) by (nonlinear_arith)
            requires
                0 <= high - low + 1 <= 0x1_0000_0000,
                p.high <= 0x3fff,
        ;
        assert((high - low + 1) * p.low <= 0x1_0000_0000 * 0x3fff) by (nonlinear_arith)
            requires
                0 <= high - low + 1 <= 0x1_0000_0000,
                p.low <= 0x3fff,
        ;
    }
    let range: u64 = high - low + 1;
    let new_high = low + (range * p.high) / p.total - 1;
    let new_low = low + (range * p.low) / p.total;
    (new_low, new_high)
}

} // verus!
