//! Laws of the fixed-point primitives, stated over their `*_spec` functions
//! and proved for all arguments.

use crate::math_lib::{
    compound_spec, compounded, lemma_compounded_grows, lemma_step_monotone, step_denominator,
    step_numerator, BPS_DENOMINATOR, PRECISION,
};
use vstd::prelude::*;

verus! {

/// Compounding `first + second` steps is compounding `first` steps and then
/// `second` more.
pub proof fn lemma_compounded_splits(
    amount: nat,
    numerator: nat,
    denominator: nat,
    first: nat,
    second: nat,
)
    ensures
        compounded(amount, numerator, denominator, first + second) == compounded(
            compounded(amount, numerator, denominator, first),
            numerator,
            denominator,
            second,
        ),
    decreases second,
{
    if second > 0 {
        lemma_compounded_splits(amount, numerator, denominator, first, (second - 1) as nat);
        assert(first + second - 1 == first + (second - 1) as nat);
    }
}

/// Compounding never gives less than it was given.
pub proof fn lemma_compound_at_least_principal(principal: u128, rate_bps: u32, periods: u32)
    ensures
        compound_spec(principal, rate_bps, periods) matches Ok(amount) ==> amount >= principal,
{
    if principal != 0 && rate_bps != 0 && periods != 0 {
        lemma_compounded_grows(
            principal as nat,
            step_numerator(rate_bps, periods),
            step_denominator(periods),
            0,
            periods as nat,
        );
        if compound_spec(principal, rate_bps, periods) is Ok {
            lemma_compound_fits(principal, rate_bps, periods);
        }
    }
}

/// Where the last product fits 128 bits, so does the compounded amount.
pub proof fn lemma_compound_fits(principal: u128, rate_bps: u32, periods: u32)
    requires
        periods > 0,
        compounded(
            principal as nat,
            step_numerator(rate_bps, periods),
            step_denominator(periods),
            (periods - 1) as nat,
        ) * step_numerator(rate_bps, periods) <= u128::MAX,
    ensures
        compounded(
            principal as nat,
            step_numerator(rate_bps, periods),
            step_denominator(periods),
            periods as nat,
        ) <= u128::MAX,
{
    let numerator = step_numerator(rate_bps, periods);
    let denominator = step_denominator(periods);
    let before = compounded(principal as nat, numerator, denominator, (periods - 1) as nat);
    assert(before * numerator / denominator <= before * numerator) by (nonlinear_arith)
        requires
            denominator >= 1,
    ;
}

/// A larger principal compounds to at least as much, and where it does not
/// overflow neither does the smaller.
pub proof fn lemma_compound_monotone_in_principal(
    smaller: u128,
    larger: u128,
    rate_bps: u32,
    periods: u32,
)
    requires
        smaller <= larger,
        compound_spec(larger, rate_bps, periods) is Ok,
    ensures
        compound_spec(smaller, rate_bps, periods) is Ok,
        compound_spec(smaller, rate_bps, periods).unwrap() <= compound_spec(
            larger,
            rate_bps,
            periods,
        ).unwrap(),
{
    if smaller != 0 && rate_bps != 0 && periods != 0 {
        let numerator = step_numerator(rate_bps, periods);
        let denominator = step_denominator(periods);
        let last = (periods - 1) as nat;
        lemma_compounded_monotone(smaller as nat, larger as nat, numerator, denominator, last);
        lemma_compounded_monotone(
            smaller as nat,
            larger as nat,
            numerator,
            denominator,
            periods as nat,
        );
        let low = compounded(smaller as nat, numerator, denominator, last);
        let high = compounded(larger as nat, numerator, denominator, last);
        assert(low * numerator <= high * numerator) by (nonlinear_arith)
            requires
                low <= high,
        ;
        lemma_compound_fits(smaller, rate_bps, periods);
        lemma_compound_fits(larger, rate_bps, periods);
    } else if smaller == 0 {
    } else {
        lemma_compound_at_least_principal(larger, rate_bps, periods);
    }
}

/// Compounding keeps the order of two starting amounts.
pub proof fn lemma_compounded_monotone(
    low: nat,
    high: nat,
    numerator: nat,
    denominator: nat,
    steps: nat,
)
    requires
        low <= high,
        0 < denominator,
    ensures
        compounded(low, numerator, denominator, steps) <= compounded(
            high,
            numerator,
            denominator,
            steps,
        ),
    decreases steps,
{
    if steps > 0 {
        let before = (steps - 1) as nat;
        lemma_compounded_monotone(low, high, numerator, denominator, before);
        lemma_step_monotone(
            compounded(low, numerator, denominator, before),
            compounded(high, numerator, denominator, before),
            numerator,
            denominator,
        );
    }
}

/// Compounding by a larger numerator over the same denominator gives at
/// least as much.
pub proof fn lemma_compounded_monotone_in_numerator(
    amount: nat,
    low: nat,
    high: nat,
    denominator: nat,
    steps: nat,
)
    requires
        low <= high,
        0 < denominator,
    ensures
        compounded(amount, low, denominator, steps) <= compounded(amount, high, denominator, steps),
    decreases steps,
{
    if steps > 0 {
        let before = (steps - 1) as nat;
        lemma_compounded_monotone_in_numerator(amount, low, high, denominator, before);
        let a = compounded(amount, low, denominator, before);
        let b = compounded(amount, high, denominator, before);
        assert(a * low <= b * high) by (nonlinear_arith)
            requires
                a <= b,
                low <= high,
        ;
        vstd::arithmetic::div_mod::lemma_div_is_ordered(
            (a * low) as int,
            (b * high) as int,
            denominator as int,
        );
    }
}

/// A higher rate compounds to at least as much, and where it does not
/// overflow neither does the lower.
pub proof fn lemma_compound_monotone_in_rate(principal: u128, lower: u32, higher: u32, periods: u32)
    requires
        lower <= higher,
        compound_spec(principal, higher, periods) is Ok,
    ensures
        compound_spec(principal, lower, periods) is Ok,
        compound_spec(principal, lower, periods).unwrap() <= compound_spec(
            principal,
            higher,
            periods,
        ).unwrap(),
{
    if principal != 0 && lower != 0 && periods != 0 {
        let denominator = step_denominator(periods);
        let low = step_numerator(lower, periods);
        let high = step_numerator(higher, periods);
        let last = (periods - 1) as nat;
        lemma_compounded_monotone_in_numerator(principal as nat, low, high, denominator, last);
        lemma_compounded_monotone_in_numerator(
            principal as nat,
            low,
            high,
            denominator,
            periods as nat,
        );
        let a = compounded(principal as nat, low, denominator, last);
        let b = compounded(principal as nat, high, denominator, last);
        assert(a * low <= b * high) by (nonlinear_arith)
            requires
                a <= b,
                low <= high,
        ;
        lemma_compound_fits(principal, lower, periods);
        lemma_compound_fits(principal, higher, periods);
    } else {
        lemma_compound_at_least_principal(principal, higher, periods);
    }
}

/// From an amount of at least the denominator on, a larger numerator gives
/// strictly more after every positive number of steps.
pub proof fn lemma_compounded_increases_with_numerator(
    amount: nat,
    low: nat,
    high: nat,
    denominator: nat,
    steps: nat,
)
    requires
        0 < denominator <= low < high,
        denominator <= amount,
        0 < steps,
    ensures
        compounded(amount, low, denominator, steps) < compounded(amount, high, denominator, steps),
    decreases steps,
{
    let before = (steps - 1) as nat;
    if before > 0 {
        lemma_compounded_increases_with_numerator(amount, low, high, denominator, before);
    }
    lemma_compounded_grows(amount, low, denominator, 0, before);
    let a = compounded(amount, low, denominator, before) as int;
    let b = compounded(amount, high, denominator, before) as int;
    let den = denominator as int;
    assert(a * (low + 1) <= b * high) by (nonlinear_arith)
        requires
            0 <= a <= b,
            0 <= low,
            low + 1 <= high,
    ;
    assert(a * (low + 1) == a * low + a) by (nonlinear_arith);
    assert((a * low + den) / den == a * low / den + 1) by {
        vstd::arithmetic::div_mod::lemma_div_plus_one(a * low, den);
    }
    vstd::arithmetic::div_mod::lemma_div_is_ordered(a * low + den, b * high, den);
}

/// For a principal of at least `10 000 * periods` base units, a higher rate
/// compounds to strictly more; and where it does not overflow neither does
/// the lower.
pub proof fn lemma_compound_increases_with_rate(
    principal: u128,
    lower: u32,
    higher: u32,
    periods: u32,
)
    requires
        lower < higher,
        0 < periods,
        principal >= step_denominator(periods),
        compound_spec(principal, higher, periods) is Ok,
    ensures
        compound_spec(principal, lower, periods) is Ok,
        compound_spec(principal, lower, periods).unwrap() < compound_spec(
            principal,
            higher,
            periods,
        ).unwrap(),
{
    lemma_compound_monotone_in_rate(principal, lower, higher, periods);
    let denominator = step_denominator(periods);
    lemma_compounded_increases_with_numerator(
        principal as nat,
        step_numerator(lower, periods),
        step_numerator(higher, periods),
        denominator,
        periods as nat,
    );
    lemma_compound_fits(principal, higher, periods);
    if lower == 0 {
        lemma_compounded_unchanged(principal as nat, denominator, periods as nat);
    } else {
        lemma_compound_fits(principal, lower, periods);
    }
}

/// Compounding by a factor of one changes nothing.
pub proof fn lemma_compounded_unchanged(amount: nat, denominator: nat, steps: nat)
    requires
        0 < denominator,
    ensures
        compounded(amount, denominator, denominator, steps) == amount,
    decreases steps,
{
    if steps > 0 {
        lemma_compounded_unchanged(amount, denominator, (steps - 1) as nat);
        vstd::arithmetic::div_mod::lemma_div_by_multiple(amount as int, denominator as int);
    }
}

/// While `steps * rate` stays below the denominator, compounding at
/// `(denominator + rate) / denominator` grows an amount by at most
/// `denominator / (denominator - steps * rate)`.
pub proof fn lemma_compounded_bound(amount: nat, rate: nat, denominator: nat, steps: nat)
    requires
        steps * rate < denominator,
    ensures
        compounded(amount, denominator + rate, denominator, steps) * (denominator - steps * rate)
            <= amount * denominator,
    decreases steps,
{
    if steps > 0 {
        let before = (steps - 1) as nat;
        assert(before * rate <= steps * rate) by (nonlinear_arith)
            requires
                before <= steps,
        ;
        lemma_compounded_bound(amount, rate, denominator, before);
        let a = compounded(amount, denominator + rate, denominator, before);
        let b = compounded(amount, denominator + rate, denominator, steps);
        let n = denominator as int;
        let r = rate as int;
        let left = n - steps * r;
        assert(steps * r == before * r + r) by (nonlinear_arith)
            requires
                steps == before + 1,
        ;
        assert(b == a * (denominator + rate) / denominator);
        assert(b * n <= a * (n + r)) by {
            vstd::arithmetic::div_mod::lemma_fundamental_div_mod(a * (n + r), n);
            vstd::arithmetic::div_mod::lemma_mod_bound(a * (n + r), n);
            assert(n * (a * (n + r) / n) == (a * (n + r) / n) * n) by (nonlinear_arith);
        }
        assert(b * left * n <= a * (n + r) * left) by (nonlinear_arith)
            requires
                b * n <= a * (n + r),
                left >= 0,
        ;
        assert((n + r) * left <= n * (n - before * r)) by (nonlinear_arith)
            requires
                left == n - before * r - r,
                n > 0,
                r >= 0,
                before >= 0,
        ;
        assert(a * (n + r) * left <= a * (n * (n - before * r))) by (nonlinear_arith)
            requires
                (n + r) * left <= n * (n - before * r),
                a >= 0,
        ;
        assert(a * (n * (n - before * r)) == (a * (n - before * r)) * n) by (nonlinear_arith);
        assert((a * (n - before * r)) * n <= (amount * n) * n) by (nonlinear_arith)
            requires
                a * (n - before * r) <= amount * n,
                n > 0,
        ;
        assert(b * left <= amount * n) by (nonlinear_arith)
            requires
                b * left * n <= (amount * n) * n,
                n > 0,
        ;
    } else {
        assert(0 * rate == 0) by (nonlinear_arith);
    }
}

/// At a rate of at most 100%, no number of steps up to `periods` makes more
/// than six times the amount.
pub proof fn lemma_compounded_at_most_sixfold(amount: nat, rate: nat, periods: nat, steps: nat)
    requires
        0 < periods,
        rate <= BPS_DENOMINATOR,
        steps <= periods,
    ensures
        compounded(
            amount,
            BPS_DENOMINATOR as nat * periods + rate,
            BPS_DENOMINATOR as nat * periods,
            steps,
        ) <= 6 * amount,
{
    let n = BPS_DENOMINATOR as nat * periods;
    let half = periods / 2;
    let early = if steps <= half {
        steps
    } else {
        half
    };
    // up to half the periods at most double the amount
    let doubled = compounded(amount, n + rate, n, early);
    assert(doubled <= 2 * amount) by {
        assert(early * rate <= half * 10_000) by (nonlinear_arith)
            requires
                early <= half,
                rate <= 10_000,
        ;
        lemma_compounded_bound(amount, rate, n, early);
        let room = n - early * rate;
        assert(2 * room >= n);
        assert(doubled * n <= doubled * (2 * room)) by (nonlinear_arith)
            requires
                n <= 2 * room,
                doubled >= 0,
        ;
        assert(doubled * (2 * room) == 2 * (doubled * room)) by (nonlinear_arith);
        assert(doubled <= 2 * amount) by (nonlinear_arith)
            requires
                doubled * n <= 2 * (amount * n),
                n > 0,
        ;
    }
    if steps > half {
        if periods == 1 {
            assert(steps == 1 && half == 0);
            assert(compounded(amount, n + rate, n, 1) == amount * (n + rate) / n) by {
                reveal_with_fuel(compounded, 2);
            }
            assert(amount * (n + rate) <= amount * (2 * n)) by (nonlinear_arith)
                requires
                    rate <= n,
            ;
            vstd::arithmetic::div_mod::lemma_div_is_ordered(
                (amount * (n + rate)) as int,
                (amount * (2 * n)) as int,
                n as int,
            );
            assert(amount * (2 * n) == (2 * amount) * n) by (nonlinear_arith);
            vstd::arithmetic::div_mod::lemma_div_by_multiple((2 * amount) as int, n as int);
        } else {
            let late = (steps - half) as nat;
            lemma_compounded_splits(amount, n + rate, n, half, late);
            let grown = compounded(doubled, n + rate, n, late);
            assert(late * rate <= (periods - half) * 10_000) by (nonlinear_arith)
                requires
                    late <= periods - half,
                    rate <= 10_000,
            ;
            lemma_compounded_bound(doubled, rate, n, late);
            let room = n - late * rate;
            assert(room >= half * 10_000);
            assert(grown * (half * 10_000) <= grown * room) by (nonlinear_arith)
                requires
                    half * 10_000 <= room,
                    grown >= 0,
            ;
            assert(doubled * n <= (2 * amount) * (3 * half * 10_000)) by (nonlinear_arith)
                requires
                    doubled <= 2 * amount,
                    n <= 3 * half * 10_000,
                    n >= 0,
                    doubled >= 0,
            ;
            assert((2 * amount) * (3 * half * 10_000) == (6 * amount) * (half * 10_000))
                by (nonlinear_arith);
            assert(grown <= 6 * amount) by (nonlinear_arith)
                requires
                    grown * (half * 10_000) <= (6 * amount) * (half * 10_000),
                    half * 10_000 > 0,
            ;
        }
    }
}

/// A sufficient condition for [`compound_spec`] to succeed: the rate is at
/// most 100% and six times the principal can be multiplied by the step
/// numerator in 128 bits.
pub proof fn lemma_compound_succeeds(principal: u128, rate_bps: u32, periods: u32)
    requires
        rate_bps <= BPS_DENOMINATOR,
        6 * principal * step_numerator(rate_bps, periods) <= u128::MAX,
    ensures
        compound_spec(principal, rate_bps, periods) is Ok,
        compound_spec(principal, rate_bps, periods).unwrap() <= 6 * principal,
{
    if principal != 0 && rate_bps != 0 && periods != 0 {
        let numerator = step_numerator(rate_bps, periods);
        let denominator = step_denominator(periods);
        let last = (periods - 1) as nat;
        lemma_compounded_at_most_sixfold(principal as nat, rate_bps as nat, periods as nat, last);
        lemma_compounded_at_most_sixfold(
            principal as nat,
            rate_bps as nat,
            periods as nat,
            periods as nat,
        );
        let before = compounded(principal as nat, numerator, denominator, last);
        assert(before * numerator <= 6 * principal * numerator) by (nonlinear_arith)
            requires
                before <= 6 * principal,
        ;
    }
}

/// Within the range the library is meant for (a principal of up to a
/// billion whole units, a rate of up to 100%, up to 365 periods)
/// compounding succeeds.
pub proof fn lemma_compound_succeeds_in_range(principal: u128, rate_bps: u32, periods: u32)
    requires
        principal <= 1_000_000_000 * PRECISION,
        rate_bps <= BPS_DENOMINATOR,
        periods <= 365,
    ensures
        compound_spec(principal, rate_bps, periods) is Ok,
        compound_spec(principal, rate_bps, periods).unwrap() <= 6 * principal,
{
    let numerator = step_numerator(rate_bps, periods);
    assert(numerator <= 3_660_000);
    assert(6 * principal * numerator <= 6 * (1_000_000_000 * PRECISION) * 3_660_000)
        by (nonlinear_arith)
        requires
            principal <= 1_000_000_000 * PRECISION,
            numerator <= 3_660_000,
    ;
    lemma_compound_succeeds(principal, rate_bps, periods);
}

} // verus!
