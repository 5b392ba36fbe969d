//! Fixed-point financial primitives.
//!
//! Amounts are `u128` integers with 18 decimal places; rates, fees and risk
//! scores are basis points. Each primitive is a total function: it returns
//! either the value its `*_spec` companion describes or the error that
//! companion names, and never wraps or panics.

use crate::math_laws::lemma_compound_succeeds_in_range;
use vstd::prelude::*;

verus! {

/// Scale of a fixed-point amount: one whole unit is `PRECISION` base units.
pub const PRECISION: u128 = 1_000_000_000_000_000_000;

/// Basis points that make up 100%.
pub const BPS_DENOMINATOR: u128 = 10_000;

/// Seconds in a 365-day year.
pub const SECONDS_PER_YEAR: u128 = 31_536_000;

/// Largest admissible risk score; a side with this score is expected to lose
/// everything.
pub const MAX_RISK_SCORE: u128 = 10_000;

/// Why a primitive could not produce a value.
#[derive(Debug, PartialEq, Eq, Clone, Copy, Structural)]
pub enum MathError {
    /// A result would not fit the integer type that holds it.
    Overflow,
    /// A subtraction would go below zero.
    Underflow,
    /// A divisor was zero.
    DivisionByZero,
    /// An argument lies outside its domain.
    InvalidInput,
}

pub type MathResult<T> = Result<T, MathError>;

/// The amount that `steps` compounding steps make of `amount`, each step
/// multiplying by `numerator / denominator` and rounding down.
pub open spec fn compounded(amount: nat, numerator: nat, denominator: nat, steps: nat) -> nat
    decreases steps,
{
    if steps == 0 {
        amount
    } else {
        compounded(amount, numerator, denominator, (steps - 1) as nat) * numerator / denominator
    }
}

/// Denominator of one compounding step when the rate is spread over `periods`
/// steps.
pub open spec fn step_denominator(periods: u32) -> nat {
    (BPS_DENOMINATOR * periods) as nat
}

/// Numerator of one compounding step: the denominator plus the rate.
pub open spec fn step_numerator(rate_bps: u32, periods: u32) -> nat {
    step_denominator(periods) + rate_bps as nat
}

/// What [`compound`] returns.
///
/// The amounts never shrink from one step to the next, so the largest product
/// the computation forms is the one of its last step; the computation
/// overflows exactly when that product does.
pub open spec fn compound_spec(principal: u128, rate_bps: u32, periods: u32) -> MathResult<u128> {
    if principal == 0 {
        Ok(0)
    } else if rate_bps == 0 || periods == 0 {
        Ok(principal)
    } else {
        let numerator = step_numerator(rate_bps, periods);
        let denominator = step_denominator(periods);
        if compounded(principal as nat, numerator, denominator, (periods - 1) as nat) * numerator
            > u128::MAX {
            Err(MathError::Overflow)
        } else {
            Ok(compounded(principal as nat, numerator, denominator, periods as nat) as u128)
        }
    }
}

/// One step with a factor of at least one does not shrink the amount.
pub proof fn lemma_step_grows(amount: nat, numerator: nat, denominator: nat)
    requires
        0 < denominator <= numerator,
    ensures
        amount * numerator / denominator >= amount,
{
    assert(amount * numerator / denominator >= amount) by (nonlinear_arith)
        requires
            0 < denominator <= numerator,
    ;
}

/// One step keeps the order of two amounts.
pub proof fn lemma_step_monotone(low: nat, high: nat, numerator: nat, denominator: nat)
    requires
        low <= high,
        0 < denominator,
    ensures
        low * numerator / denominator <= high * numerator / denominator,
{
    assert(low * numerator <= high * numerator) by (nonlinear_arith)
        requires
            low <= high,
    ;
    vstd::arithmetic::div_mod::lemma_div_is_ordered(
        (low * numerator) as int,
        (high * numerator) as int,
        denominator as int,
    );
}

/// With a factor of at least one, more steps never give less.
pub proof fn lemma_compounded_grows(
    amount: nat,
    numerator: nat,
    denominator: nat,
    fewer: nat,
    more: nat,
)
    requires
        0 < denominator <= numerator,
        fewer <= more,
    ensures
        compounded(amount, numerator, denominator, fewer) <= compounded(
            amount,
            numerator,
            denominator,
            more,
        ),
    decreases more,
{
    if fewer < more {
        let before = (more - 1) as nat;
        lemma_compounded_grows(amount, numerator, denominator, fewer, before);
        lemma_step_grows(
            compounded(amount, numerator, denominator, before),
            numerator,
            denominator,
        );
    }
}

/// Compounds `principal` at `rate_bps` basis points spread evenly over
/// `periods` discrete steps, rounding down after every step.
pub fn compound(principal: u128, rate_bps: u32, periods: u32) -> (amount: MathResult<u128>)
    ensures
        amount == compound_spec(principal, rate_bps, periods),
        principal == 0 ==> amount == Ok::<u128, MathError>(0),
        rate_bps == 0 || periods == 0 ==> amount == Ok::<u128, MathError>(principal),
        principal != 0 && rate_bps != 0 && periods == 1 ==> amount == if principal * (
        BPS_DENOMINATOR + rate_bps) > u128::MAX {
            Err::<u128, MathError>(MathError::Overflow)
        } else {
            Ok::<u128, MathError>(
                (principal * (BPS_DENOMINATOR + rate_bps) / BPS_DENOMINATOR as int) as u128,
            )
        },
        amount matches Ok(v) ==> v >= principal,
        amount matches Err(e) ==> e == MathError::Overflow,
        principal <= 1_000_000_000 * PRECISION && rate_bps <= BPS_DENOMINATOR && periods <= 365
            ==> amount is Ok,
{
    if principal == 0 {
        return Ok(0);
    }
    if rate_bps == 0 || periods == 0 {
        return Ok(principal);
    }
    proof {
        reveal_with_fuel(compounded, 2);
    }
    let denominator = match BPS_DENOMINATOR.checked_mul(periods as u128) {
        Some(d) => d,
        None => {
            return Err(MathError::Overflow);
        },
    };
    let numerator = match denominator.checked_add(rate_bps as u128) {
        Some(n) => n,
        None => {
            return Err(MathError::Overflow);
        },
    };
    let ghost start = principal as nat;
    let ghost num = numerator as nat;
    let ghost den = denominator as nat;
    let mut amount = principal;
    let mut done: u32 = 0;
    while done < periods
        invariant
            done <= periods,
            0 < den <= num,
            num == numerator,
            den == denominator,
            start == principal,
            num == step_numerator(rate_bps, periods),
            den == step_denominator(periods),
            principal != 0 && rate_bps != 0 && periods != 0,
            amount == compounded(start, num, den, done as nat),
            done > 0 ==> compounded(start, num, den, (done - 1) as nat) * num <= u128::MAX,
        decreases periods - done,
    {
        let product = match amount.checked_mul(numerator) {
            Some(p) => p,
            None => {
                proof {
                    if principal <= 1_000_000_000 * PRECISION && rate_bps <= BPS_DENOMINATOR
                        && periods <= 365 {
                        lemma_compound_succeeds_in_range(principal, rate_bps, periods);
                    }
                    let last = (periods - 1) as nat;
                    lemma_compounded_grows(start, num, den, done as nat, last);
                    assert(compounded(start, num, den, last) * num >= amount * num)
                        by (nonlinear_arith)
                        requires
                            compounded(start, num, den, last) >= amount,
                    ;
                }
                return Err(MathError::Overflow);
            },
        };
        amount = match product.checked_div(denominator) {
            Some(q) => q,
            None => {
                return Err(MathError::DivisionByZero);
            },
        };
        done = done + 1;
    }
    proof {
        lemma_compounded_grows(start, num, den, 0, periods as nat);
    }
    Ok(amount)
}

/// What [`annualize`] returns: the rate scaled from a window of
/// `period_seconds` seconds to a whole year, rounded down.
pub open spec fn annualize_spec(rate_bps: u32, period_seconds: u64) -> MathResult<u32> {
    if period_seconds == 0 {
        Err(MathError::DivisionByZero)
    } else if rate_bps * SECONDS_PER_YEAR / period_seconds as int > u32::MAX {
        Err(MathError::Overflow)
    } else {
        Ok((rate_bps * SECONDS_PER_YEAR / period_seconds as int) as u32)
    }
}

/// Converts a rate observed over `period_seconds` seconds into a yearly rate.
pub fn annualize(rate_bps: u32, period_seconds: u64) -> (annual: MathResult<u32>)
    ensures
        annual == annualize_spec(rate_bps, period_seconds),
        period_seconds == 0 ==> annual == Err::<u32, MathError>(MathError::DivisionByZero),
        period_seconds == SECONDS_PER_YEAR ==> annual == Ok::<u32, MathError>(rate_bps),
        rate_bps == 0 && period_seconds != 0 ==> annual == Ok::<u32, MathError>(0),
{
    if period_seconds == 0 {
        return Err(MathError::DivisionByZero);
    }
    let scaled = match (rate_bps as u128).checked_mul(SECONDS_PER_YEAR) {
        Some(p) => p,
        None => {
            return Err(MathError::Overflow);
        },
    };
    proof {
        if period_seconds == SECONDS_PER_YEAR {
            vstd::arithmetic::div_mod::lemma_div_by_multiple(
                rate_bps as int,
                SECONDS_PER_YEAR as int,
            );
        }
        if rate_bps == 0 {
            vstd::arithmetic::div_mod::lemma_div_of0(period_seconds as int);
        }
    }
    let annual = match scaled.checked_div(period_seconds as u128) {
        Some(q) => q,
        None => {
            return Err(MathError::DivisionByZero);
        },
    };
    if annual > u32::MAX as u128 {
        return Err(MathError::Overflow);
    }
    Ok(annual as u32)
}

/// What [`fee_adjusted_yield`] returns: the gross yield less the fee's share
/// of it, the fee rounded down.
pub open spec fn fee_adjusted_yield_spec(gross_yield: u128, fee_bps: u32) -> MathResult<u128> {
    if fee_bps > BPS_DENOMINATOR {
        Err(MathError::InvalidInput)
    } else if gross_yield == 0 || fee_bps == 0 {
        Ok(gross_yield)
    } else if gross_yield * fee_bps > u128::MAX {
        Err(MathError::Overflow)
    } else {
        Ok((gross_yield - gross_yield * fee_bps / BPS_DENOMINATOR as int) as u128)
    }
}

/// Deducts a protocol fee of `fee_bps` basis points from `gross_yield`.
pub fn fee_adjusted_yield(gross_yield: u128, fee_bps: u32) -> (net: MathResult<u128>)
    ensures
        net == fee_adjusted_yield_spec(gross_yield, fee_bps),
        fee_bps > BPS_DENOMINATOR ==> net == Err::<u128, MathError>(MathError::InvalidInput),
        fee_bps == 0 ==> net == Ok::<u128, MathError>(gross_yield),
        fee_bps == BPS_DENOMINATOR && gross_yield * BPS_DENOMINATOR <= u128::MAX ==> net == Ok::<
            u128,
            MathError,
        >(0),
        net matches Ok(v) ==> v <= gross_yield,
        net != Err::<u128, MathError>(MathError::Underflow),
        net != Err::<u128, MathError>(MathError::DivisionByZero),
{
    if fee_bps as u128 > BPS_DENOMINATOR {
        return Err(MathError::InvalidInput);
    }
    if gross_yield == 0 || fee_bps == 0 {
        return Ok(gross_yield);
    }
    let product = match gross_yield.checked_mul(fee_bps as u128) {
        Some(p) => p,
        None => {
            return Err(MathError::Overflow);
        },
    };
    let fee = match product.checked_div(BPS_DENOMINATOR) {
        Some(f) => f,
        None => {
            return Err(MathError::DivisionByZero);
        },
    };
    assert(fee <= gross_yield) by (nonlinear_arith)
        requires
            fee == (gross_yield * fee_bps) / 10_000,
            fee_bps <= 10_000,
    ;
    match gross_yield.checked_sub(fee) {
        Some(net) => Ok(net),
        None => Err(MathError::Underflow),
    }
}

/// Sum of `values[i] * weights[i]` over the first `count` positions.
pub open spec fn weighted_sum_of_first(values: Seq<u128>, weights: Seq<u128>, count: nat) -> nat
    decreases count,
{
    if count == 0 {
        0
    } else {
        weighted_sum_of_first(values, weights, (count - 1) as nat) + (values[count - 1]
            * weights[count - 1]) as nat
    }
}

/// Sum of the first `count` weights.
pub open spec fn weight_of_first(weights: Seq<u128>, count: nat) -> nat
    decreases count,
{
    if count == 0 {
        0
    } else {
        weight_of_first(weights, (count - 1) as nat) + weights[count - 1] as nat
    }
}

/// Sum of `values[i] * weights[i]` over all positions of `values`.
pub open spec fn weighted_sum(values: Seq<u128>, weights: Seq<u128>) -> nat {
    weighted_sum_of_first(values, weights, values.len())
}

/// Sum of all `weights`.
pub open spec fn total_weight(weights: Seq<u128>) -> nat {
    weight_of_first(weights, weights.len())
}

/// What [`weighted_average`] returns: the weighted sum divided by the total
/// weight, rounded down.
pub open spec fn weighted_average_spec(values: Seq<u128>, weights: Seq<u128>) -> MathResult<u128> {
    if values.len() == 0 || values.len() != weights.len() {
        Err(MathError::InvalidInput)
    } else if weighted_sum(values, weights) > u128::MAX || total_weight(weights) > u128::MAX {
        Err(MathError::Overflow)
    } else if total_weight(weights) == 0 {
        Err(MathError::DivisionByZero)
    } else {
        Ok((weighted_sum(values, weights) / total_weight(weights)) as u128)
    }
}

/// The sums over fewer positions are at most the sums over more.
pub proof fn lemma_sums_grow(values: Seq<u128>, weights: Seq<u128>, fewer: nat, more: nat)
    requires
        fewer <= more,
    ensures
        weighted_sum_of_first(values, weights, fewer) <= weighted_sum_of_first(
            values,
            weights,
            more,
        ),
        weight_of_first(weights, fewer) <= weight_of_first(weights, more),
    decreases more,
{
    if fewer < more {
        lemma_sums_grow(values, weights, fewer, (more - 1) as nat);
    }
}

/// Average of `values` in which `values[i]` counts `weights[i]` times.
pub fn weighted_average(values: &[u128], weights: &[u128]) -> (average: MathResult<u128>)
    ensures
        average == weighted_average_spec(values@, weights@),
        average != Err::<u128, MathError>(MathError::Underflow),
{
    if values.is_empty() || values.len() != weights.len() {
        return Err(MathError::InvalidInput);
    }
    let mut sum: u128 = 0;
    let mut weight: u128 = 0;
    let mut next: usize = 0;
    while next < values.len()
        invariant
            next <= values.len(),
            values.len() == weights.len(),
            sum == weighted_sum_of_first(values@, weights@, next as nat),
            weight == weight_of_first(weights@, next as nat),
        decreases values.len() - next,
    {
        let v = values[next];
        let w = weights[next];
        proof {
            lemma_sums_grow(values@, weights@, (next + 1) as nat, values@.len());
        }
        let product = match v.checked_mul(w) {
            Some(p) => p,
            None => {
                return Err(MathError::Overflow);
            },
        };
        sum = match sum.checked_add(product) {
            Some(t) => t,
            None => {
                return Err(MathError::Overflow);
            },
        };
        weight = match weight.checked_add(w) {
            Some(t) => t,
            None => {
                return Err(MathError::Overflow);
            },
        };
        next = next + 1;
    }
    if weight == 0 {
        return Err(MathError::DivisionByZero);
    }
    match sum.checked_div(weight) {
        Some(q) => Ok(q),
        None => Err(MathError::DivisionByZero),
    }
}

/// A yield discounted in proportion to its risk score: nothing is taken off
/// at score zero, everything at [`MAX_RISK_SCORE`].
pub open spec fn risk_adjusted(yield_bps: u32, risk: u32) -> nat {
    (yield_bps * (MAX_RISK_SCORE - risk) / MAX_RISK_SCORE as int) as nat
}

/// What [`optimal_split`] returns.
pub open spec fn optimal_split_spec(yield_a_bps: u32, yield_b_bps: u32, risk_a: u32, risk_b: u32)
    -> MathResult<(u64, u64)> {
    if risk_a > MAX_RISK_SCORE || risk_b > MAX_RISK_SCORE {
        Err(MathError::InvalidInput)
    } else {
        let adjusted_a = risk_adjusted(yield_a_bps, risk_a);
        let adjusted_b = risk_adjusted(yield_b_bps, risk_b);
        if adjusted_a + adjusted_b == 0 {
            Ok((50, 50))
        } else {
            let share_a = adjusted_a * 100 / (adjusted_a + adjusted_b);
            Ok((share_a as u64, (100 - share_a) as u64))
        }
    }
}

/// The part of a yield that is left after the discount for `risk`.
fn discount_for_risk(yield_bps: u32, risk: u32) -> (adjusted: MathResult<u128>)
    requires
        risk <= MAX_RISK_SCORE,
    ensures
        adjusted == Ok::<u128, MathError>(risk_adjusted(yield_bps, risk) as u128),
        risk_adjusted(yield_bps, risk) <= yield_bps,
{
    let headroom = match MAX_RISK_SCORE.checked_sub(risk as u128) {
        Some(h) => h,
        None => {
            return Err(MathError::Underflow);
        },
    };
    assert(yield_bps * headroom <= yield_bps * 10_000) by (nonlinear_arith)
        requires
            headroom <= 10_000,
    ;
    let scaled = match (yield_bps as u128).checked_mul(headroom) {
        Some(p) => p,
        None => {
            return Err(MathError::Overflow);
        },
    };
    match scaled.checked_div(MAX_RISK_SCORE) {
        Some(q) => Ok(q),
        None => Err(MathError::DivisionByZero),
    }
}

/// Splits an allocation between two destinations in proportion to their
/// risk-adjusted yields. The second share is what the first leaves of 100.
pub fn optimal_split(yield_a_bps: u32, yield_b_bps: u32, risk_a: u32, risk_b: u32) -> (split:
    MathResult<(u64, u64)>)
    ensures
        split == optimal_split_spec(yield_a_bps, yield_b_bps, risk_a, risk_b),
        split is Ok <==> risk_a <= MAX_RISK_SCORE && risk_b <= MAX_RISK_SCORE,
        split matches Err(e) ==> e == MathError::InvalidInput,
        split matches Ok(shares) ==> shares.0 + shares.1 == 100,
        split is Ok && risk_adjusted(yield_a_bps, risk_a) == 0 && risk_adjusted(yield_b_bps, risk_b)
            == 0 ==> split == Ok::<(u64, u64), MathError>((50, 50)),
{
    if risk_a as u128 > MAX_RISK_SCORE || risk_b as u128 > MAX_RISK_SCORE {
        return Err(MathError::InvalidInput);
    }
    let adjusted_a = match discount_for_risk(yield_a_bps, risk_a) {
        Ok(a) => a,
        Err(e) => {
            return Err(e);
        },
    };
    let adjusted_b = match discount_for_risk(yield_b_bps, risk_b) {
        Ok(b) => b,
        Err(e) => {
            return Err(e);
        },
    };
    let total = match adjusted_a.checked_add(adjusted_b) {
        Some(t) => t,
        None => {
            return Err(MathError::Overflow);
        },
    };
    if total == 0 {
        return Ok((50, 50));
    }
    let scaled = match adjusted_a.checked_mul(100) {
        Some(p) => p,
        None => {
            return Err(MathError::Overflow);
        },
    };
    let share = match scaled.checked_div(total) {
        Some(q) => q,
        None => {
            return Err(MathError::DivisionByZero);
        },
    };
    assert(share <= 100) by (nonlinear_arith)
        requires
            share == (adjusted_a * 100) / (total as int),
            0 <= adjusted_a <= total,
            total > 0,
    ;
    let share_a = share as u64;
    match 100u64.checked_sub(share_a) {
        Some(share_b) => Ok((share_a, share_b)),
        None => Err(MathError::Underflow),
    }
}

} // verus!
