//! Laws of the optimizer, stated over [`optimize_spec`] and proved for all
//! requests.

use crate::math_laws::{lemma_compound_at_least_principal, lemma_compound_succeeds_in_range};
use crate::math_lib::{
    compound_spec, fee_adjusted_yield_spec, optimal_split_spec, risk_adjusted, step_numerator,
    BPS_DENOMINATOR, MAX_RISK_SCORE, PRECISION,
};
use crate::period_laws::lemma_compound_succeeds_at_high_rate;
use crate::yield_optimizer::{
    acceptable, in_supported_range, net_rate_spec, optimize_spec, projected_yield_spec,
    OptimizerError, OptimizerInput, YieldRecommendation,
};
use vstd::prelude::*;

verus! {

/// Whenever a split is found its shares make up 100.
pub proof fn lemma_split_shares(yield_a_bps: u32, yield_b_bps: u32, risk_a: u32, risk_b: u32)
    ensures
        optimal_split_spec(yield_a_bps, yield_b_bps, risk_a, risk_b) matches Ok(shares)
            ==> shares.0 + shares.1 == 100,
{
    if risk_a <= MAX_RISK_SCORE && risk_b <= MAX_RISK_SCORE {
        let a = risk_adjusted(yield_a_bps, risk_a) as int;
        let b = risk_adjusted(yield_b_bps, risk_b) as int;
        if a + b != 0 {
            assert(0 <= a * 100 / (a + b) <= 100) by (nonlinear_arith)
                requires
                    0 <= a,
                    0 <= b,
                    a + b > 0,
            ;
        }
    }
}

/// Every recommendation is well formed: the shares make up 100% and a
/// destination is used exactly when its share is positive.
pub proof fn lemma_recommendation_wf(input: OptimizerInput)
    ensures
        optimize_spec(input) matches Ok(recommendation) ==> recommendation.wf(),
{
    if acceptable(input) {
        if let Ok(rate_a) = net_rate_spec(
            input.principal,
            input.hydradx_apy_bps,
            input.hydradx_fee_bps,
            input.projection_periods,
        ) {
            if let Ok(rate_b) = net_rate_spec(
                input.principal,
                input.interlay_apy_bps,
                input.interlay_fee_bps,
                input.projection_periods,
            ) {
                lemma_split_shares(
                    rate_a,
                    rate_b,
                    input.hydradx_risk_score,
                    input.interlay_risk_score,
                );
            }
        }
    }
}

/// A request that misses a cross-field condition is refused as invalid
/// input, whatever else it holds.
pub proof fn lemma_unacceptable_is_invalid(input: OptimizerInput)
    requires
        input.principal == 0 || input.projection_periods == 0 || input.hydradx_fee_bps
            > BPS_DENOMINATOR || input.interlay_fee_bps > BPS_DENOMINATOR,
    ensures
        optimize_spec(input) == Err::<YieldRecommendation, OptimizerError>(
            OptimizerError::InvalidInput,
        ),
{
}

/// Within the supported range a destination's net rate exists and is at
/// most 500%.
pub proof fn lemma_net_rate_in_range(principal: u128, apy_bps: u32, fee_bps: u32, periods: u32)
    requires
        0 < principal <= 1_000_000_000 * PRECISION,
        apy_bps <= BPS_DENOMINATOR,
        fee_bps <= BPS_DENOMINATOR,
        periods <= 365,
    ensures
        net_rate_spec(principal, apy_bps, fee_bps, periods) is Ok,
        net_rate_spec(principal, apy_bps, fee_bps, periods).unwrap() <= 5 * BPS_DENOMINATOR,
{
    lemma_compound_succeeds_in_range(principal, apy_bps, periods);
    lemma_compound_at_least_principal(principal, apy_bps, periods);
    let total = compound_spec(principal, apy_bps, periods).unwrap();
    let gross = (total - principal) as u128;
    assert(gross <= 5 * principal);
    assert(gross * fee_bps <= (5 * principal) * 10_000) by (nonlinear_arith)
        requires
            gross <= 5 * principal,
            fee_bps <= 10_000,
    ;
    let net = fee_adjusted_yield_spec(gross, fee_bps).unwrap();
    assert(net <= gross) by {
        if gross != 0 && fee_bps != 0 {
            assert(0 <= gross * fee_bps / 10_000 <= gross) by (nonlinear_arith)
                requires
                    gross >= 0,
                    0 <= fee_bps <= 10_000,
            ;
        }
    }
    assert(net * BPS_DENOMINATOR <= (5 * BPS_DENOMINATOR) * principal) by (nonlinear_arith)
        requires
            net <= 5 * principal,
    ;
    vstd::arithmetic::div_mod::lemma_div_is_ordered(
        net * BPS_DENOMINATOR,
        (5 * BPS_DENOMINATOR) * principal,
        principal as int,
    );
    vstd::arithmetic::div_mod::lemma_div_by_multiple(
        5 * BPS_DENOMINATOR as int,
        principal as int,
    );
}

/// Within the supported range the yield of every split of the principal
/// can be projected.
pub proof fn lemma_projected_yield_in_range(
    principal: u128,
    rate_a: u32,
    rate_b: u32,
    share_a: u64,
    periods: u32,
)
    requires
        principal <= 1_000_000_000 * PRECISION,
        rate_a <= 5 * BPS_DENOMINATOR,
        rate_b <= 5 * BPS_DENOMINATOR,
        share_a <= 100,
        periods <= 365,
    ensures
        projected_yield_spec(principal, rate_a, rate_b, share_a, periods) is Ok,
{
    assert(principal * share_a <= principal * 100) by (nonlinear_arith)
        requires
            share_a <= 100,
            principal >= 0,
    ;
    let part_a = (principal * share_a / 100) as u128;
    assert(part_a <= principal) by (nonlinear_arith)
        requires
            part_a == (principal * share_a) / 100,
            share_a <= 100,
    ;
    let part_b = (principal - part_a) as u128;
    lemma_part_compounds(part_a, rate_a, periods);
    lemma_part_compounds(part_b, rate_b, periods);
}

/// A part of a principal in the supported range compounds at up to 500% to
/// at most 402 times itself.
proof fn lemma_part_compounds(part: u128, rate_bps: u32, periods: u32)
    requires
        part <= 1_000_000_000 * PRECISION,
        rate_bps <= 5 * BPS_DENOMINATOR,
        periods <= 365,
    ensures
        compound_spec(part, rate_bps, periods) is Ok,
        compound_spec(part, rate_bps, periods).unwrap() <= 402 * part,
{
    let numerator = step_numerator(rate_bps, periods);
    assert(numerator <= 3_700_000);
    assert(402 * part * numerator <= 402 * (1_000_000_000 * PRECISION) * 3_700_000)
        by (nonlinear_arith)
        requires
            part <= 1_000_000_000 * PRECISION,
            numerator <= 3_700_000,
    ;
    lemma_compound_succeeds_at_high_rate(part, rate_bps, periods);
}

/// Within the supported range the optimizer always finds a recommendation:
/// no step of it overflows.
pub proof fn lemma_optimize_succeeds_in_range(input: OptimizerInput)
    requires
        in_supported_range(input),
    ensures
        optimize_spec(input) is Ok,
        optimize_spec(input).unwrap().wf(),
{
    lemma_net_rate_in_range(
        input.principal,
        input.hydradx_apy_bps,
        input.hydradx_fee_bps,
        input.projection_periods,
    );
    lemma_net_rate_in_range(
        input.principal,
        input.interlay_apy_bps,
        input.interlay_fee_bps,
        input.projection_periods,
    );
    let rate_a = net_rate_spec(
        input.principal,
        input.hydradx_apy_bps,
        input.hydradx_fee_bps,
        input.projection_periods,
    ).unwrap();
    let rate_b = net_rate_spec(
        input.principal,
        input.interlay_apy_bps,
        input.interlay_fee_bps,
        input.projection_periods,
    ).unwrap();
    lemma_split_shares(rate_a, rate_b, input.hydradx_risk_score, input.interlay_risk_score);
    let shares = optimal_split_spec(
        rate_a,
        rate_b,
        input.hydradx_risk_score,
        input.interlay_risk_score,
    ).unwrap();
    lemma_projected_yield_in_range(
        input.principal,
        rate_a,
        rate_b,
        shares.0,
        input.projection_periods,
    );
    lemma_recommendation_wf(input);
}

} // verus!
