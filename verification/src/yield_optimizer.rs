//! The allocation optimizer.
//!
//! [`optimize`] is a pure function from an [`OptimizerInput`] to a
//! [`YieldRecommendation`]: it derives a net rate for each destination,
//! splits the principal by risk-adjusted net rate, and projects the yield of
//! that split. Its result is the value of [`optimize_spec`] on the same
//! input, so equal inputs give equal results.

use crate::math_lib::{
    compound, compound_spec, fee_adjusted_yield, fee_adjusted_yield_spec, optimal_split,
    optimal_split_spec, total_weight, weight_of_first, weighted_average, weighted_average_spec,
    weighted_sum, weighted_sum_of_first, MathError, MathResult, BPS_DENOMINATOR, MAX_RISK_SCORE,
    PRECISION,
};
use crate::optimizer_laws::lemma_optimize_succeeds_in_range;
use vstd::prelude::*;

verus! {

/// Why [`optimize`] produced no recommendation.
#[derive(Debug, PartialEq, Eq, Clone, Copy, Structural)]
pub enum OptimizerError {
    /// A primitive failed; the recommendation would rest on a bad number.
    Math(MathError),
    /// The request is inconsistent: no principal, no periods, or a fee above
    /// 100%.
    InvalidInput,
}

impl From<MathError> for OptimizerError {
    fn from(e: MathError) -> (wrapped: OptimizerError) {
        OptimizerError::Math(e)
    }
}

impl vstd::std_specs::convert::FromSpecImpl<MathError> for OptimizerError {
    open spec fn obeys_from_spec() -> bool {
        true
    }

    open spec fn from_spec(e: MathError) -> OptimizerError {
        OptimizerError::Math(e)
    }
}

pub type OptimizerResult<T> = Result<T, OptimizerError>;

/// A request: how much to allocate, and what is known of the two
/// destinations.
#[derive(Debug, Clone, Copy)]
pub struct OptimizerInput {
    /// Amount to allocate, as a fixed-point amount. Must be positive.
    pub principal: u128,
    /// Gross yearly yield of the first destination, in basis points.
    pub hydradx_apy_bps: u32,
    /// Gross yearly yield of the second destination, in basis points.
    pub interlay_apy_bps: u32,
    /// Fee the first destination takes of the yield, in basis points.
    pub hydradx_fee_bps: u32,
    /// Fee the second destination takes of the yield, in basis points.
    pub interlay_fee_bps: u32,
    /// Risk score of the first destination, 0 to 10 000.
    pub hydradx_risk_score: u32,
    /// Risk score of the second destination, 0 to 10 000.
    pub interlay_risk_score: u32,
    /// Number of compounding steps to project over. Must be positive.
    pub projection_periods: u32,
}

/// A recommendation: which destinations to use, with what share of the
/// principal, and what that is projected to earn.
#[derive(Debug, PartialEq, Eq, Clone, Copy, Structural)]
pub struct YieldRecommendation {
    /// Whether the first destination receives anything.
    pub use_hydradx: bool,
    /// Whether the second destination receives anything.
    pub use_interlay: bool,
    /// Share of the principal for the first destination, in percent.
    pub hydradx_allocation_pct: u64,
    /// Share of the principal for the second destination, in percent.
    pub interlay_allocation_pct: u64,
    /// Net rate of the split over the projection window, in basis points.
    pub projected_net_apy_bps: u32,
    /// Yield of the split over the projection window, as a fixed-point
    /// amount.
    pub expected_yield_dot: u128,
}

impl YieldRecommendation {
    /// The two shares make up 100%, and a destination is used exactly when
    /// its share is positive.
    pub open spec fn wf(&self) -> bool {
        &&& self.hydradx_allocation_pct + self.interlay_allocation_pct == 100
        &&& self.use_hydradx == (self.hydradx_allocation_pct > 0)
        &&& self.use_interlay == (self.interlay_allocation_pct > 0)
    }
}

/// The cross-field conditions a request must meet before any arithmetic runs.
pub open spec fn acceptable(input: OptimizerInput) -> bool {
    &&& input.principal > 0
    &&& input.projection_periods > 0
    &&& input.hydradx_fee_bps <= BPS_DENOMINATOR
    &&& input.interlay_fee_bps <= BPS_DENOMINATOR
}

/// The range of requests the library is meant for: a principal of up to a
/// billion whole units, gross yields and fees of up to 100%, risk scores up
/// to the maximum, and up to 365 periods.
pub open spec fn in_supported_range(input: OptimizerInput) -> bool {
    &&& 0 < input.principal <= 1_000_000_000 * PRECISION
    &&& input.hydradx_apy_bps <= BPS_DENOMINATOR
    &&& input.interlay_apy_bps <= BPS_DENOMINATOR
    &&& input.hydradx_fee_bps <= BPS_DENOMINATOR
    &&& input.interlay_fee_bps <= BPS_DENOMINATOR
    &&& input.hydradx_risk_score <= MAX_RISK_SCORE
    &&& input.interlay_risk_score <= MAX_RISK_SCORE
    &&& 0 < input.projection_periods <= 365
}

/// What a destination earns on the whole principal over the window, after
/// its fee.
pub open spec fn net_yield_spec(principal: u128, apy_bps: u32, fee_bps: u32, periods: u32)
    -> MathResult<u128> {
    match compound_spec(principal, apy_bps, periods) {
        Ok(total) => fee_adjusted_yield_spec((total - principal) as u128, fee_bps),
        Err(e) => Err(e),
    }
}

/// A destination's net yield in basis points of the principal, rounded
/// down. A rate that does not fit 32 bits is an overflow.
pub open spec fn net_rate_spec(principal: u128, apy_bps: u32, fee_bps: u32, periods: u32)
    -> MathResult<u32> {
    match net_yield_spec(principal, apy_bps, fee_bps, periods) {
        Ok(net) => if net * BPS_DENOMINATOR > u128::MAX || net * BPS_DENOMINATOR
            / principal as int > u32::MAX {
            Err(MathError::Overflow)
        } else {
            Ok((net * BPS_DENOMINATOR / principal as int) as u32)
        },
        Err(e) => Err(e),
    }
}

/// The average of two rates weighted by the shares they receive, rounded
/// down.
pub open spec fn blended_rate(rate_a: u32, rate_b: u32, share_a: u64, share_b: u64) -> nat {
    ((rate_a * share_a + rate_b * share_b) / (share_a + share_b)) as nat
}

/// What the split is projected to yield: the first destination compounds
/// `share_a` percent of the principal, rounded down, the second what is left
/// of it, each at its own net rate.
pub open spec fn projected_yield_spec(
    principal: u128,
    rate_a: u32,
    rate_b: u32,
    share_a: u64,
    periods: u32,
) -> MathResult<u128> {
    if principal * share_a > u128::MAX {
        Err(MathError::Overflow)
    } else {
        let part_a = (principal * share_a / 100) as u128;
        let part_b = (principal - part_a) as u128;
        match compound_spec(part_a, rate_a, periods) {
            Ok(final_a) => match compound_spec(part_b, rate_b, periods) {
                Ok(final_b) => if final_a + final_b > u128::MAX {
                    Err(MathError::Overflow)
                } else {
                    Ok((final_a + final_b - principal) as u128)
                },
                Err(e) => Err(e),
            },
            Err(e) => Err(e),
        }
    }
}

/// The recommendation for a split that is already decided.
pub open spec fn recommendation_spec(
    share_a: u64,
    share_b: u64,
    blended: u32,
    expected_yield: u128,
) -> YieldRecommendation {
    YieldRecommendation {
        use_hydradx: share_a > 0,
        use_interlay: share_b > 0,
        hydradx_allocation_pct: share_a,
        interlay_allocation_pct: share_b,
        projected_net_apy_bps: blended,
        expected_yield_dot: expected_yield,
    }
}

/// What [`optimize`] returns.
pub open spec fn optimize_spec(input: OptimizerInput) -> OptimizerResult<YieldRecommendation> {
    if !acceptable(input) {
        Err(OptimizerError::InvalidInput)
    } else {
        match net_rate_spec(
            input.principal,
            input.hydradx_apy_bps,
            input.hydradx_fee_bps,
            input.projection_periods,
        ) {
            Err(e) => Err(OptimizerError::Math(e)),
            Ok(rate_a) => match net_rate_spec(
                input.principal,
                input.interlay_apy_bps,
                input.interlay_fee_bps,
                input.projection_periods,
            ) {
                Err(e) => Err(OptimizerError::Math(e)),
                Ok(rate_b) => match optimal_split_spec(
                    rate_a,
                    rate_b,
                    input.hydradx_risk_score,
                    input.interlay_risk_score,
                ) {
                    Err(e) => Err(OptimizerError::Math(e)),
                    Ok(shares) => match projected_yield_spec(
                        input.principal,
                        rate_a,
                        rate_b,
                        shares.0,
                        input.projection_periods,
                    ) {
                        Err(e) => Err(OptimizerError::Math(e)),
                        Ok(expected_yield) => Ok(
                            recommendation_spec(
                                shares.0,
                                shares.1,
                                blended_rate(rate_a, rate_b, shares.0, shares.1) as u32,
                                expected_yield,
                            ),
                        ),
                    },
                },
            },
        }
    }
}

/// Net rate of one destination over the window.
fn net_rate(principal: u128, apy_bps: u32, fee_bps: u32, periods: u32) -> (rate: MathResult<u32>)
    requires
        principal > 0,
        fee_bps <= BPS_DENOMINATOR,
    ensures
        rate == net_rate_spec(principal, apy_bps, fee_bps, periods),
        rate matches Err(e) ==> e == MathError::Overflow,
{
    let total = match compound(principal, apy_bps, periods) {
        Ok(t) => t,
        Err(e) => {
            return Err(e);
        },
    };
    let gross = match total.checked_sub(principal) {
        Some(g) => g,
        None => {
            return Err(MathError::Underflow);
        },
    };
    let net = match fee_adjusted_yield(gross, fee_bps) {
        Ok(n) => n,
        Err(e) => {
            return Err(e);
        },
    };
    let scaled = match net.checked_mul(BPS_DENOMINATOR) {
        Some(s) => s,
        None => {
            return Err(MathError::Overflow);
        },
    };
    let rate = match scaled.checked_div(principal) {
        Some(q) => q,
        None => {
            return Err(MathError::DivisionByZero);
        },
    };
    if rate > u32::MAX as u128 {
        return Err(MathError::Overflow);
    }
    Ok(rate as u32)
}

/// Yield of the principal split `share_a` to `100 - share_a`.
fn projected_yield(principal: u128, rate_a: u32, rate_b: u32, share_a: u64, periods: u32) -> (out:
    MathResult<u128>)
    requires
        share_a <= 100,
    ensures
        out == projected_yield_spec(principal, rate_a, rate_b, share_a, periods),
        out matches Err(e) ==> e == MathError::Overflow,
{
    let scaled = match principal.checked_mul(share_a as u128) {
        Some(s) => s,
        None => {
            return Err(MathError::Overflow);
        },
    };
    let part_a = match scaled.checked_div(100) {
        Some(q) => q,
        None => {
            return Err(MathError::DivisionByZero);
        },
    };
    assert(part_a <= principal) by (nonlinear_arith)
        requires
            part_a == (principal * share_a) / 100,
            share_a <= 100,
    ;
    let part_b = match principal.checked_sub(part_a) {
        Some(r) => r,
        None => {
            return Err(MathError::Underflow);
        },
    };
    let final_a = match compound(part_a, rate_a, periods) {
        Ok(f) => f,
        Err(e) => {
            return Err(e);
        },
    };
    let final_b = match compound(part_b, rate_b, periods) {
        Ok(f) => f,
        Err(e) => {
            return Err(e);
        },
    };
    let total = match final_a.checked_add(final_b) {
        Some(t) => t,
        None => {
            return Err(MathError::Overflow);
        },
    };
    match total.checked_sub(principal) {
        Some(y) => Ok(y),
        None => Err(MathError::Underflow),
    }
}

/// The weighted average of two values is the blend of them.
pub proof fn lemma_weighted_average_of_two(rate_a: u32, rate_b: u32, share_a: u64, share_b: u64)
    requires
        share_a + share_b > 0,
    ensures
        weighted_average_spec(
            seq![rate_a as u128, rate_b as u128],
            seq![share_a as u128, share_b as u128],
        ) == Ok::<u128, MathError>(blended_rate(rate_a, rate_b, share_a, share_b) as u128),
        blended_rate(rate_a, rate_b, share_a, share_b) <= u32::MAX,
{
    let values = seq![rate_a as u128, rate_b as u128];
    let weights = seq![share_a as u128, share_b as u128];
    reveal_with_fuel(weighted_sum_of_first, 3);
    reveal_with_fuel(weight_of_first, 3);
    assert(weighted_sum(values, weights) == rate_a * share_a + rate_b * share_b);
    assert(total_weight(weights) == share_a + share_b);
    assert(rate_a * share_a + rate_b * share_b <= 0xffff_ffff * (share_a + share_b))
        by (nonlinear_arith)
        requires
            rate_a <= 0xffff_ffff,
            rate_b <= 0xffff_ffff,
            share_a >= 0,
            share_b >= 0,
    ;
    assert((rate_a * share_a + rate_b * share_b) / (share_a + share_b) <= 0xffff_ffff)
        by (nonlinear_arith)
        requires
            rate_a * share_a + rate_b * share_b <= 0xffff_ffff * (share_a + share_b),
            share_a + share_b > 0,
    ;
    assert(rate_a * share_a + rate_b * share_b <= 0xffff_ffff * 0x1_ffff_ffff_ffff_fffe)
        by (nonlinear_arith)
        requires
            rate_a * share_a + rate_b * share_b <= 0xffff_ffff * (share_a + share_b),
            share_a + share_b <= 0x1_ffff_ffff_ffff_fffe,
    ;
}

/// Net rate of a split, in basis points.
fn blend(rate_a: u32, rate_b: u32, share_a: u64, share_b: u64) -> (out: MathResult<u32>)
    requires
        share_a + share_b > 0,
    ensures
        out == Ok::<u32, MathError>(blended_rate(rate_a, rate_b, share_a, share_b) as u32),
{
    let values: [u128; 2] = [rate_a as u128, rate_b as u128];
    let weights: [u128; 2] = [share_a as u128, share_b as u128];
    proof {
        lemma_weighted_average_of_two(rate_a, rate_b, share_a, share_b);
        assert(values@ =~= seq![rate_a as u128, rate_b as u128]);
        assert(weights@ =~= seq![share_a as u128, share_b as u128]);
    }
    match weighted_average(&values, &weights) {
        Ok(average) => Ok(average as u32),
        Err(e) => Err(e),
    }
}

/// Recommends how to split `input.principal` between the two destinations.
///
/// Fails with [`OptimizerError::InvalidInput`] exactly when the principal or
/// the number of periods is zero or a fee exceeds 100%, before any
/// arithmetic; otherwise the first primitive that fails decides the error.
pub fn optimize(input: &OptimizerInput) -> (result: OptimizerResult<YieldRecommendation>)
    ensures
        result == optimize_spec(*input),
        !acceptable(*input) ==> result == Err::<YieldRecommendation, OptimizerError>(
            OptimizerError::InvalidInput,
        ),
        in_supported_range(*input) ==> result is Ok,
        result matches Ok(recommendation) ==> recommendation.wf(),
        result matches Err(e) ==> e == OptimizerError::InvalidInput || e == OptimizerError::Math(
            MathError::Overflow,
        ) || e == OptimizerError::Math(MathError::InvalidInput),
        result == Err::<YieldRecommendation, OptimizerError>(
            OptimizerError::Math(MathError::InvalidInput),
        ) ==> input.hydradx_risk_score > MAX_RISK_SCORE || input.interlay_risk_score
            > MAX_RISK_SCORE,
{
    proof {
        if in_supported_range(*input) {
            lemma_optimize_succeeds_in_range(*input);
        }
    }
    if input.principal == 0 {
        return Err(OptimizerError::InvalidInput);
    }
    if input.projection_periods == 0 {
        return Err(OptimizerError::InvalidInput);
    }
    if input.hydradx_fee_bps as u128 > BPS_DENOMINATOR || input.interlay_fee_bps as u128
        > BPS_DENOMINATOR {
        return Err(OptimizerError::InvalidInput);
    }
    let hydradx_rate = match net_rate(
        input.principal,
        input.hydradx_apy_bps,
        input.hydradx_fee_bps,
        input.projection_periods,
    ) {
        Ok(r) => r,
        Err(e) => {
            return Err(OptimizerError::from(e));
        },
    };
    let interlay_rate = match net_rate(
        input.principal,
        input.interlay_apy_bps,
        input.interlay_fee_bps,
        input.projection_periods,
    ) {
        Ok(r) => r,
        Err(e) => {
            return Err(OptimizerError::from(e));
        },
    };
    let (hydradx_pct, interlay_pct) = match optimal_split(
        hydradx_rate,
        interlay_rate,
        input.hydradx_risk_score,
        input.interlay_risk_score,
    ) {
        Ok(shares) => shares,
        Err(e) => {
            return Err(OptimizerError::from(e));
        },
    };
    let expected_yield = match projected_yield(
        input.principal,
        hydradx_rate,
        interlay_rate,
        hydradx_pct,
        input.projection_periods,
    ) {
        Ok(y) => y,
        Err(e) => {
            return Err(OptimizerError::from(e));
        },
    };
    let blended = match blend(hydradx_rate, interlay_rate, hydradx_pct, interlay_pct) {
        Ok(b) => b,
        Err(e) => {
            return Err(OptimizerError::from(e));
        },
    };
    Ok(
        YieldRecommendation {
            use_hydradx: hydradx_pct > 0,
            use_interlay: interlay_pct > 0,
            hydradx_allocation_pct: hydradx_pct,
            interlay_allocation_pct: interlay_pct,
            projected_net_apy_bps: blended,
            expected_yield_dot: expected_yield,
        },
    )
}

} // verus!
