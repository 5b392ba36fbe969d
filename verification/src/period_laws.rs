//! How the number of periods bears on a compounded amount.
//!
//! Spreading a rate over more periods earns more in exact arithmetic, but
//! every step rounds down, and on a small principal the rounding can
//! outweigh the gain: 10 base units at 10% make 11 in one period and 10 in
//! two. [`lemma_compound_increases_with_periods`] gives a size of principal
//! from which more periods do give strictly more. The same comparison with
//! exact arithmetic bounds the growth at rates of up to 500%
//! ([`lemma_compound_succeeds_at_high_rate`]).

use crate::math_lib::{compound_spec, compounded, step_denominator, step_numerator, BPS_DENOMINATOR};
use vstd::arithmetic::power::{lemma_pow_distributes, lemma_pow_positive, pow};
use vstd::prelude::*;

verus! {

/// One more factor: `b^(k+1) = b * b^k`.
pub proof fn lemma_pow_step(b: int, k: nat)
    ensures
        pow(b, k + 1) == b * pow(b, k),
{
    reveal(pow);
}

/// A larger base gives a larger power.
pub proof fn lemma_pow_monotone(low: int, high: int, k: nat)
    requires
        0 < low <= high,
    ensures
        0 < pow(low, k) <= pow(high, k),
    decreases k,
{
    lemma_pow_positive(low, k);
    if k == 0 {
        reveal(pow);
    } else {
        let before = (k - 1) as nat;
        lemma_pow_monotone(low, high, before);
        lemma_pow_step(low, before);
        lemma_pow_step(high, before);
        assert(low * pow(low, before) <= high * pow(high, before)) by (nonlinear_arith)
            requires
                0 < low <= high,
                0 < pow(low, before) <= pow(high, before),
        ;
    }
}

/// Rounding down never gives more than exact arithmetic:
/// `compounded(a, num, den, k) * den^k <= a * num^k`.
pub proof fn lemma_compounded_upper(amount: nat, numerator: nat, denominator: nat, steps: nat)
    requires
        0 < denominator,
    ensures
        compounded(amount, numerator, denominator, steps) * pow(denominator as int, steps)
            <= amount * pow(numerator as int, steps),
    decreases steps,
{
    let num = numerator as int;
    let den = denominator as int;
    if steps == 0 {
        reveal(pow);
    } else {
        let before = (steps - 1) as nat;
        lemma_compounded_upper(amount, numerator, denominator, before);
        lemma_pow_step(num, before);
        lemma_pow_step(den, before);
        lemma_pow_positive(den, before);
        let a = compounded(amount, numerator, denominator, before) as int;
        let b = compounded(amount, numerator, denominator, steps) as int;
        let dk = pow(den, before);
        let nk = pow(num, before);
        assert(b == a * num / den);
        assert(b * den <= a * num) by {
            vstd::arithmetic::div_mod::lemma_fundamental_div_mod(a * num, den);
            vstd::arithmetic::div_mod::lemma_mod_bound(a * num, den);
            assert(den * (a * num / den) == (a * num / den) * den) by (nonlinear_arith);
        }
        assert(b * (den * dk) <= amount * (num * nk)) by (nonlinear_arith)
            requires
                b * den <= a * num,
                a * dk <= amount * nk,
                dk > 0,
                num >= 0,
                a >= 0,
                b >= 0,
        ;
    }
}

/// Each step loses less than one unit to rounding:
/// `compounded(a, num, den, k) * den^k >= (a - k) * num^k` where the factor
/// is at least one.
pub proof fn lemma_compounded_lower(amount: nat, numerator: nat, denominator: nat, steps: nat)
    requires
        0 < denominator <= numerator,
    ensures
        compounded(amount, numerator, denominator, steps) * pow(denominator as int, steps) >= (
        amount - steps) * pow(numerator as int, steps),
    decreases steps,
{
    let num = numerator as int;
    let den = denominator as int;
    if steps == 0 {
        reveal(pow);
    } else {
        let before = (steps - 1) as nat;
        lemma_compounded_lower(amount, numerator, denominator, before);
        lemma_pow_step(num, before);
        lemma_pow_step(den, before);
        lemma_pow_monotone(den, num, before);
        let a = compounded(amount, numerator, denominator, before) as int;
        let b = compounded(amount, numerator, denominator, steps) as int;
        let dk = pow(den, before);
        let nk = pow(num, before);
        assert(b == a * num / den);
        assert(b * den >= a * num - den) by {
            vstd::arithmetic::div_mod::lemma_fundamental_div_mod(a * num, den);
            vstd::arithmetic::div_mod::lemma_mod_bound(a * num, den);
            assert(den * (a * num / den) == (a * num / den) * den) by (nonlinear_arith);
        }
        // b * den^(k+1) >= (a * num - den) * den^k
        assert(b * (den * dk) >= (a * num) * dk - den * dk) by (nonlinear_arith)
            requires
                b * den >= a * num - den,
                dk > 0,
        ;
        // (a * den^k) * num >= (amount - before) * num^k * num
        assert((a * num) * dk >= (amount - before) * (num * nk)) by (nonlinear_arith)
            requires
                a * dk >= (amount - before) * nk,
                num > 0,
        ;
        // den^(k+1) <= num^(k+1)
        assert(den * dk <= num * nk) by (nonlinear_arith)
            requires
                0 < den <= num,
                0 < dk <= nk,
        ;
        assert((amount - before) * (num * nk) - num * nk == (amount - steps) * (num * nk))
            by (nonlinear_arith)
            requires
                steps == before + 1,
        ;
    }
}

/// Bernoulli's inequality: `(b - a)^k * b >= b^k * (b - k * a)`.
pub proof fn lemma_bernoulli(a: int, b: int, k: nat)
    requires
        0 <= a <= b,
    ensures
        pow(b - a, k) * b >= pow(b, k) * (b - k * a),
    decreases k,
{
    if k == 0 {
        reveal(pow);
        assert(0 * a == 0) by (nonlinear_arith);
    } else {
        let before = (k - 1) as nat;
        lemma_bernoulli(a, b, before);
        lemma_pow_step(b - a, before);
        lemma_pow_step(b, before);
        let small = pow(b - a, before);
        let large = pow(b, before);
        assert(large >= 0) by {
            if b > 0 {
                lemma_pow_positive(b, before);
            } else {
                if before == 0 {
                    reveal(pow);
                } else {
                    vstd::arithmetic::power::lemma0_pow(before);
                }
            }
        }
        // (b - a) * (small * b) >= (b - a) * large * (b - before * a)
        assert(((b - a) * small) * b >= (b - a) * (large * (b - before * a))) by (nonlinear_arith)
            requires
                small * b >= large * (b - before * a),
                b - a >= 0,
        ;
        // (b - a)(b - before a) = b (b - k a) + before a^2
        assert((b - a) * (large * (b - before * a)) >= (b * large) * (b - k * a))
            by (nonlinear_arith)
            requires
                k == before + 1,
                large >= 0,
                0 <= a <= b,
        ;
    }
}

/// Bernoulli's inequality with its second-order term:
/// `(b - a)^(k+1) * b^2 >= b^(k+1) * (b^2 - (k+1) * a * b + k * a^2)`.
pub proof fn lemma_bernoulli_second_order(a: int, b: int, k: nat)
    requires
        0 <= a <= b,
    ensures
        pow(b - a, k + 1) * (b * b) >= pow(b, k + 1) * (b * b - (k + 1) * a * b + k * a * a),
{
    lemma_bernoulli(a, b, k);
    lemma_pow_step(b - a, k);
    lemma_pow_step(b, k);
    let small = pow(b - a, k);
    let large = pow(b, k);
    assert(large >= 0) by {
        if b > 0 {
            lemma_pow_positive(b, k);
        } else {
            if k == 0 {
                reveal(pow);
            } else {
                vstd::arithmetic::power::lemma0_pow(k);
            }
        }
    }
    assert(((b - a) * small) * (b * b) >= ((b - a) * b) * (large * (b - k * a)))
        by (nonlinear_arith)
        requires
            small * b >= large * (b - k * a),
            (b - a) * b >= 0,
    ;
    assert((b - a) * b >= 0) by (nonlinear_arith)
        requires
            0 <= a <= b,
    ;
    assert(((b - a) * b) * (large * (b - k * a)) == (b * large) * (b * b - (k + 1) * a * b + k * a
        * a)) by (nonlinear_arith);
}

/// What the rounding of `periods` steps at `rate` can cost, in units of
/// `principal * rate^2`.
pub open spec fn rounding_weight(rate: int, periods: int) -> int {
    periods * (BPS_DENOMINATOR * (periods * periods) * (BPS_DENOMINATOR * (periods - 1) + rate)
        + rate * rate)
}

/// Whether a principal is large enough for the gain of spreading `rate_bps`
/// over `periods` steps to outweigh the rounding of those steps.
pub open spec fn outweighs_rounding(principal: u128, rate_bps: u32, periods: u32) -> bool {
    principal * (rate_bps * rate_bps) > rounding_weight(rate_bps as int, periods as int)
}

/// `(a * b) * (c * e) == (a * c) * (b * e)`.
proof fn lemma_regroup(a: int, b: int, c: int, e: int)
    ensures
        (a * b) * (c * e) == (a * c) * (b * e),
{
    assert((a * b) * (c * e) == (a * c) * (b * e)) by (nonlinear_arith);
}

/// A common positive factor can be taken off both sides.
proof fn lemma_cancel(factor: int, left: int, right: int)
    requires
        factor > 0,
        factor * left >= factor * right,
    ensures
        left >= right,
{
    assert(left >= right) by (nonlinear_arith)
        requires
            factor > 0,
            factor * left >= factor * right,
    ;
}

/// In exact arithmetic one more period gains a factor of at least
/// `1 + r^2 / q`, where `q = D * m^2 * (D * n + r)` and `m = n + 1`. With
/// `x = (D*n + r)^n`, `w = (D*n)^n`, `z = (D*m + r)^m` and `y = (D*m)^m`:
/// `q * (z * w) >= (q + r^2) * (x * y)`.
pub proof fn lemma_one_more_period_gains(rate: int, periods: nat)
    requires
        0 < rate,
        0 < periods,
    ensures
        ({
            let d = BPS_DENOMINATOR as int;
            let n = periods as int;
            let m = n + 1;
            let q = d * (m * m) * (d * n + rate);
            q * (pow(d * m + rate, (periods + 1) as nat) * pow(d * n, periods)) >= (q + rate * rate)
                * (pow(d * n + rate, periods) * pow(d * m, (periods + 1) as nat))
        }),
{
    let d = BPS_DENOMINATOR as int;
    let n = periods as int;
    let m = n + 1;
    let more = (periods + 1) as nat;
    let r = rate;
    let v = d * n;
    let u = v + r;
    let v2 = d * m;
    let u2 = v2 + r;
    let mm = m * m;
    let rr = r * r;
    let q = d * mm * u;
    let b = m * u;
    assert(v2 == v + d) by (nonlinear_arith)
        requires
            v2 == d * m,
            v == d * n,
            m == n + 1,
    ;
    assert(v > 0) by (nonlinear_arith)
        requires
            v == d * n,
            d > 0,
            n > 0,
    ;
    assert(mm > 0) by (nonlinear_arith)
        requires
            mm == m * m,
            m > 0,
    ;
    assert(rr > 0) by (nonlinear_arith)
        requires
            rr == r * r,
            r > 0,
    ;
    // the ratio of the two step factors is (b - r) / b with b = m * u
    assert(b - r == n * u2) by (nonlinear_arith)
        requires
            b == m * u,
            m == n + 1,
            u2 == u + d,
            u == v + r,
            v == d * n,
    ;
    assert(0 <= r <= b) by (nonlinear_arith)
        requires
            b - r == n * u2,
            n > 0,
            u2 > 0,
            r > 0,
    ;
    lemma_bernoulli_second_order(r, b, periods);
    let bracket = b * b - (periods + 1) * r * b + periods * r * r;
    // bracket == n * (q + r^2)
    assert(b - m * r == m * v) by (nonlinear_arith)
        requires
            b == m * u,
            u == v + r,
    ;
    assert(b * b - (m * r) * b == b * (m * v)) by (nonlinear_arith)
        requires
            b - m * r == m * v,
    ;
    assert(b * (m * v) == mm * (u * v)) by {
        lemma_regroup(m, u, m, v);
    }
    assert(mm * (u * v) == n * q) by (nonlinear_arith)
        requires
            v == d * n,
            q == d * mm * u,
    ;
    assert((n * r) * r == n * rr) by (nonlinear_arith)
        requires
            rr == r * r,
    ;
    assert(bracket == n * q + n * rr);
    assert(bracket == n * (q + rr)) by (nonlinear_arith)
        requires
            bracket == n * q + n * rr,
    ;
    // the powers of the products, taken apart
    let x = pow(u, periods);
    let y = pow(v2, more);
    let z = pow(u2, more);
    let w = pow(v, periods);
    let pn = pow(n, periods);
    let pm = pow(m, more);
    let pd = pow(d, periods);
    lemma_pow_positive(u, periods);
    lemma_pow_positive(u2, more);
    lemma_pow_positive(n, periods);
    lemma_pow_positive(m, more);
    lemma_pow_positive(d, periods);
    lemma_pow_distributes(n, u2, more);
    lemma_pow_distributes(m, u, more);
    lemma_pow_distributes(d, n, periods);
    lemma_pow_distributes(d, m, more);
    lemma_pow_step(n, periods);
    lemma_pow_step(u, periods);
    lemma_pow_step(d, periods);
    assert(pow(b - r, more) == (n * pn) * z);
    assert(pow(b, more) == pm * (u * x));
    assert(w == pd * pn);
    assert(y == (d * pd) * pm);
    assert(b * b == mm * (u * u)) by {
        lemma_regroup(m, u, m, u);
    }
    // Bernoulli: ((n * pn) * z) * (mm * (u * u)) >= (pm * (u * x)) * (n * (q + rr))
    let core_left = (pn * z) * (mm * u);
    let core_right = (pm * x) * (q + rr);
    assert(((n * pn) * z) * (mm * (u * u)) == (n * u) * core_left) by (nonlinear_arith)
        requires
            core_left == (pn * z) * (mm * u),
    ;
    assert((pm * (u * x)) * (n * (q + rr)) == (n * u) * core_right) by (nonlinear_arith)
        requires
            core_right == (pm * x) * (q + rr),
    ;
    assert(n * u > 0) by (nonlinear_arith)
        requires
            n > 0,
            u > 0,
    ;
    lemma_cancel(n * u, core_left, core_right);
    // scale by d * pd to reach the powers of d * n and d * m
    let scale = d * pd;
    assert(scale > 0) by (nonlinear_arith)
        requires
            scale == d * pd,
            d > 0,
            pd > 0,
    ;
    assert(scale * core_left >= scale * core_right) by (nonlinear_arith)
        requires
            core_left >= core_right,
            scale > 0,
    ;
    assert(q * (z * w) == scale * core_left) by (nonlinear_arith)
        requires
            q == d * mm * u,
            w == pd * pn,
            scale == d * pd,
            core_left == (pn * z) * (mm * u),
    ;
    assert((q + rr) * (x * y) == scale * core_right) by (nonlinear_arith)
        requires
            y == (d * pd) * pm,
            scale == d * pd,
            core_right == (pm * x) * (q + rr),
    ;
}

/// The weight of the rounding grows with the number of periods.
pub proof fn lemma_rounding_weight_grows(rate: int, fewer: int, more: int)
    requires
        0 <= rate,
        1 <= fewer <= more,
    ensures
        0 <= rounding_weight(rate, fewer) <= rounding_weight(rate, more),
{
    let d = BPS_DENOMINATOR as int;
    let low = d * (fewer * fewer) * (d * (fewer - 1) + rate) + rate * rate;
    let high = d * (more * more) * (d * (more - 1) + rate) + rate * rate;
    assert(0 <= fewer * fewer <= more * more) by (nonlinear_arith)
        requires
            1 <= fewer <= more,
    ;
    assert(0 <= d * (fewer * fewer) <= d * (more * more));
    assert(0 <= d * (fewer - 1) + rate <= d * (more - 1) + rate);
    assert(0 <= d * (fewer * fewer) * (d * (fewer - 1) + rate) <= d * (more * more) * (d * (more
        - 1) + rate)) by (nonlinear_arith)
        requires
            0 <= d * (fewer * fewer) <= d * (more * more),
            0 <= d * (fewer - 1) + rate <= d * (more - 1) + rate,
    ;
    assert(rate * rate >= 0) by (nonlinear_arith);
    assert(0 <= fewer * low <= more * high) by (nonlinear_arith)
        requires
            0 <= low <= high,
            1 <= fewer <= more,
    ;
}

/// From a large enough principal on, one more period gives strictly more,
/// rounding included.
pub proof fn lemma_next_period_gives_more(principal: nat, rate: nat, periods: nat)
    requires
        0 < periods,
        principal * (rate * rate) > rounding_weight(rate as int, periods as int + 1),
    ensures
        compounded(
            principal,
            BPS_DENOMINATOR as nat * periods + rate,
            BPS_DENOMINATOR as nat * periods,
            periods,
        ) < compounded(
            principal,
            BPS_DENOMINATOR as nat * (periods + 1) + rate,
            BPS_DENOMINATOR as nat * (periods + 1),
            periods + 1,
        ),
{
    let d = BPS_DENOMINATOR as int;
    let n = periods as int;
    let m = n + 1;
    let more = (periods + 1) as nat;
    let r = rate as int;
    let p = principal as int;
    let rr = r * r;
    let mm = m * m;
    let v = d * n;
    let u = d * n + r;
    let v2 = d * m;
    let u2 = d * m + r;
    let q = d * mm * u;
    assert(rounding_weight(r, m) == m * (q + rr));
    assert(rr >= 0) by (nonlinear_arith)
        requires
            rr == r * r,
    ;
    assert(mm > 0) by (nonlinear_arith)
        requires
            mm == m * m,
            m > 0,
    ;
    assert(q >= 0) by (nonlinear_arith)
        requires
            q == d * mm * u,
            d > 0,
            mm > 0,
            u >= 0,
    ;
    assert(m * (q + rr) >= 0) by (nonlinear_arith)
        requires
            m > 0,
            q >= 0,
            rr >= 0,
    ;
    // the premise excludes a rate of zero and a principal of at most m
    assert(r > 0) by {
        if r == 0 {
            assert(p * (r * r) == 0) by (nonlinear_arith)
                requires
                    r == 0,
            ;
        }
    }
    assert(p > m) by (nonlinear_arith)
        requires
            p * rr > m * (q + rr),
            q >= 0,
            rr >= 0,
            m > 0,
            p >= 0,
    ;
    let fewer_amount = compounded(principal, (d * n + r) as nat, (d * n) as nat, periods) as int;
    let more_amount = compounded(principal, (d * m + r) as nat, (d * m) as nat, more) as int;
    assert(v > 0) by (nonlinear_arith)
        requires
            v == d * n,
            d > 0,
            n > 0,
    ;
    let x = pow(u, periods);
    let y = pow(v2, more);
    let z = pow(u2, more);
    let w = pow(v, periods);
    lemma_pow_positive(u, periods);
    lemma_pow_positive(v2, more);
    lemma_pow_positive(u2, more);
    lemma_pow_positive(v, periods);
    lemma_compounded_upper(principal, u as nat, v as nat, periods);
    lemma_compounded_lower(principal, u2 as nat, v2 as nat, more);
    lemma_one_more_period_gains(r, periods);
    assert(fewer_amount * w <= p * x);
    assert(more_amount * y >= (p - m) * z);
    assert(q * (z * w) >= (q + rr) * (x * y));
    if fewer_amount >= more_amount {
        assert(p * (x * y) >= (fewer_amount * w) * y) by (nonlinear_arith)
            requires
                fewer_amount * w <= p * x,
                y > 0,
        ;
        assert((fewer_amount * w) * y >= (more_amount * y) * w) by (nonlinear_arith)
            requires
                fewer_amount >= more_amount,
                w > 0,
                y > 0,
        ;
        assert((more_amount * y) * w >= (p - m) * (z * w)) by (nonlinear_arith)
            requires
                more_amount * y >= (p - m) * z,
                w > 0,
        ;
        let exact_fewer = x * y;
        let exact_more = z * w;
        assert(exact_fewer > 0) by (nonlinear_arith)
            requires
                exact_fewer == x * y,
                x > 0,
                y > 0,
        ;
        assert(p * exact_fewer >= (p - m) * exact_more);
        assert(q * (p * exact_fewer) >= q * ((p - m) * exact_more)) by (nonlinear_arith)
            requires
                p * exact_fewer >= (p - m) * exact_more,
                q >= 0,
        ;
        assert((p - m) * (q * exact_more) >= (p - m) * ((q + rr) * exact_fewer))
            by (nonlinear_arith)
            requires
                q * exact_more >= (q + rr) * exact_fewer,
                p - m > 0,
        ;
        assert(q * ((p - m) * exact_more) == (p - m) * (q * exact_more)) by (nonlinear_arith);
        assert(q * (p * exact_fewer) == exact_fewer * (p * q)) by (nonlinear_arith);
        assert((p - m) * ((q + rr) * exact_fewer) == exact_fewer * ((p - m) * (q + rr)))
            by (nonlinear_arith);
        lemma_cancel(exact_fewer, p * q, (p - m) * (q + rr));
        assert((p - m) * (q + rr) == p * q + (p * rr - m * (q + rr))) by (nonlinear_arith);
        assert(false);
    }
}

/// From a large enough principal on, more periods give strictly more,
/// rounding included.
pub proof fn lemma_more_periods_give_more(principal: nat, rate: nat, fewer: nat, more: nat)
    requires
        0 < fewer < more,
        principal * (rate * rate) > rounding_weight(rate as int, more as int),
    ensures
        compounded(
            principal,
            BPS_DENOMINATOR as nat * fewer + rate,
            BPS_DENOMINATOR as nat * fewer,
            fewer,
        ) < compounded(
            principal,
            BPS_DENOMINATOR as nat * more + rate,
            BPS_DENOMINATOR as nat * more,
            more,
        ),
    decreases more - fewer,
{
    let before = (more - 1) as nat;
    lemma_next_period_gives_more(principal, rate, before);
    if fewer < before {
        lemma_rounding_weight_grows(rate as int, before as int, more as int);
        lemma_more_periods_give_more(principal, rate, fewer, before);
    }
}

/// For a positive rate and a principal that outweighs the rounding of
/// `more` periods, compounding over `more` periods gives strictly more than
/// over `fewer`; and where the former does not overflow, neither does the
/// latter.
pub proof fn lemma_compound_increases_with_periods(
    principal: u128,
    rate_bps: u32,
    fewer: u32,
    more: u32,
)
    requires
        0 < fewer < more,
        outweighs_rounding(principal, rate_bps, more),
        compound_spec(principal, rate_bps, more) is Ok,
    ensures
        compound_spec(principal, rate_bps, fewer) is Ok,
        compound_spec(principal, rate_bps, fewer).unwrap() < compound_spec(
            principal,
            rate_bps,
            more,
        ).unwrap(),
{
    let r = rate_bps as int;
    lemma_rounding_weight_grows(r, fewer as int, more as int);
    assert(principal != 0 && rate_bps != 0) by {
        if principal == 0 || rate_bps == 0 {
            assert(principal * (rate_bps * rate_bps) == 0) by (nonlinear_arith)
                requires
                    principal == 0 || rate_bps == 0,
            ;
        }
    }
    lemma_more_periods_give_more(principal as nat, rate_bps as nat, fewer as nat, more as nat);
    let low_num = step_numerator(rate_bps, fewer) as int;
    let low_den = step_denominator(fewer) as int;
    let high_num = step_numerator(rate_bps, more) as int;
    let high_den = step_denominator(more) as int;
    let low_last = compounded(
        principal as nat,
        low_num as nat,
        low_den as nat,
        (fewer - 1) as nat,
    ) as int;
    let low_end = compounded(principal as nat, low_num as nat, low_den as nat, fewer as nat) as int;
    let high_last = compounded(
        principal as nat,
        high_num as nat,
        high_den as nat,
        (more - 1) as nat,
    ) as int;
    let high_end = compounded(
        principal as nat,
        high_num as nat,
        high_den as nat,
        more as nat,
    ) as int;
    assert(low_end < high_end);
    // the last product over fewer periods is below the last product over more
    assert(low_end == low_last * low_num / low_den);
    assert(high_end == high_last * high_num / high_den);
    assert(low_last * low_num < (low_end + 1) * low_den) by {
        vstd::arithmetic::div_mod::lemma_fundamental_div_mod(low_last * low_num, low_den);
        vstd::arithmetic::div_mod::lemma_mod_bound(low_last * low_num, low_den);
        assert(low_den * low_end == low_end * low_den) by (nonlinear_arith);
        assert((low_end + 1) * low_den == low_end * low_den + low_den) by (nonlinear_arith);
    }
    assert(high_end * high_den <= high_last * high_num) by {
        vstd::arithmetic::div_mod::lemma_fundamental_div_mod(high_last * high_num, high_den);
        vstd::arithmetic::div_mod::lemma_mod_bound(high_last * high_num, high_den);
        assert(high_den * high_end == high_end * high_den) by (nonlinear_arith);
    }
    assert((low_end + 1) * low_den <= high_end * high_den) by (nonlinear_arith)
        requires
            low_end + 1 <= high_end,
            0 < low_den <= high_den,
            low_end >= 0,
    ;
    crate::math_laws::lemma_compound_fits(principal, rate_bps, fewer);
    crate::math_laws::lemma_compound_fits(principal, rate_bps, more);
}

/// In exact arithmetic more periods never earn less:
/// `((D*f + r) / (D*f))^f <= ((D*m + r) / (D*m))^m` for `f <= m`.
pub proof fn lemma_exact_growth_increases(rate: int, fewer: nat, more: nat)
    requires
        0 < rate,
        0 < fewer <= more,
    ensures
        pow(BPS_DENOMINATOR * fewer + rate, fewer) * pow(BPS_DENOMINATOR * more as int, more)
            <= pow(BPS_DENOMINATOR * more + rate, more) * pow(
            BPS_DENOMINATOR * fewer as int,
            fewer,
        ),
    decreases more,
{
    let d = BPS_DENOMINATOR as int;
    let a = pow(d * fewer + rate, fewer);
    let b = pow(d * fewer, fewer);
    if fewer == more {
        assert(a * b == b * a) by (nonlinear_arith);
    } else {
        let before = (more - 1) as nat;
        lemma_exact_growth_increases(rate, fewer, before);
        lemma_one_more_period_gains(rate, before);
        let n = before as int;
        let m = n + 1;
        let x = pow(d * n + rate, before);
        let w = pow(d * n, before);
        let z = pow(d * m + rate, more);
        let y = pow(d * m, more);
        let q = d * (m * m) * (d * n + rate);
        assert(d * n > 0) by (nonlinear_arith)
            requires
                d > 0,
                n > 0,
        ;
        assert(d * fewer > 0) by (nonlinear_arith)
            requires
                d > 0,
                fewer > 0,
        ;
        assert(d * m > 0) by (nonlinear_arith)
            requires
                d > 0,
                m > 0,
        ;
        lemma_pow_positive(d * n + rate, before);
        lemma_pow_positive(d * n, before);
        lemma_pow_positive(d * m, more);
        lemma_pow_positive(d * fewer, fewer);
        lemma_pow_positive(d * fewer + rate, fewer);
        assert(q > 0) by (nonlinear_arith)
            requires
                q == d * (m * m) * (d * n + rate),
                d > 0,
                m > 0,
                d * n + rate > 0,
        ;
        // one more period: x * y <= z * w
        assert(x * y <= z * w) by (nonlinear_arith)
            requires
                q * (z * w) >= (q + rate * rate) * (x * y),
                q > 0,
                x > 0,
                y > 0,
        ;
        // with a * w <= x * b this gives a * y <= z * b
        assert((a * y) * w <= (z * b) * w) by (nonlinear_arith)
            requires
                a * w <= x * b,
                x * y <= z * w,
                y > 0,
                b > 0,
        ;
        lemma_cancel(w, z * b, a * y);
    }
}

/// In exact arithmetic, while `steps * rate` stays below the denominator,
/// `((den + rate) / den)^steps <= den / (den - steps * rate)`.
pub proof fn lemma_exact_growth_bound(rate: int, denominator: int, steps: nat)
    requires
        0 <= rate,
        steps * rate < denominator,
    ensures
        pow(denominator + rate, steps) * (denominator - steps * rate) <= pow(denominator, steps)
            * denominator,
    decreases steps,
{
    let v = denominator;
    let u = denominator + rate;
    if steps == 0 {
        reveal(pow);
        assert(0 * rate == 0) by (nonlinear_arith);
    } else {
        let before = (steps - 1) as nat;
        assert(steps * rate == before * rate + rate) by (nonlinear_arith)
            requires
                steps == before + 1,
        ;
        assert(before * rate >= 0) by (nonlinear_arith)
            requires
                rate >= 0,
        ;
        lemma_exact_growth_bound(rate, denominator, before);
        lemma_pow_step(u, before);
        lemma_pow_step(v, before);
        lemma_pow_positive(u, before);
        lemma_pow_positive(v, before);
        let uk = pow(u, before);
        let vk = pow(v, before);
        let room = v - steps * rate;
        let room_before = v - before * rate;
        assert(u * room <= v * room_before) by (nonlinear_arith)
            requires
                u == v + rate,
                room == room_before - rate,
                room_before == v - before * rate,
                rate >= 0,
                before >= 0,
                v > 0,
        ;
        assert((u * uk) * room <= v * (uk * room_before)) by (nonlinear_arith)
            requires
                u * room <= v * room_before,
                uk > 0,
        ;
        assert(v * (uk * room_before) <= v * (vk * v)) by (nonlinear_arith)
            requires
                uk * room_before <= vk * v,
                v > 0,
        ;
        assert(v * (vk * v) == (v * vk) * v) by (nonlinear_arith);
    }
}

/// The square of a power: `b^(2k) = b^k * b^k`.
proof fn lemma_pow_doubles(b: int, k: nat)
    ensures
        pow(b, 2 * k) == pow(b, k) * pow(b, k),
{
    vstd::arithmetic::power::lemma_pow_adds(b, k, k);
    assert(k + k == 2 * k);
}

/// `11^16` and `16^16`.
proof fn lemma_powers_of_11_and_16()
    ensures
        pow(11, 16) == 45_949_729_863_572_161,
        pow(16, 16) == 18_446_744_073_709_551_616,
{
    vstd::arithmetic::power::lemma_pow1(11);
    vstd::arithmetic::power::lemma_pow1(16);
    lemma_pow_doubles(11, 1);
    assert(pow(11, 2) == 121);
    lemma_pow_doubles(11, 2);
    assert(pow(11, 4) == 14_641);
    lemma_pow_doubles(11, 4);
    assert(pow(11, 8) == 214_358_881);
    lemma_pow_doubles(11, 8);
    lemma_pow_doubles(16, 1);
    assert(pow(16, 2) == 256);
    lemma_pow_doubles(16, 2);
    assert(pow(16, 4) == 65_536);
    lemma_pow_doubles(16, 4);
    assert(pow(16, 8) == 4_294_967_296);
    lemma_pow_doubles(16, 8);
}

/// At a rate of at most 500%, no number of steps up to `periods` makes more
/// than 402 times the amount: in exact arithmetic the growth over `periods`
/// periods is at most that over sixteen times as many, which is at most
/// `(16 / 11)^16`.
pub proof fn lemma_compounded_at_most_402_fold(amount: nat, rate: nat, periods: nat, steps: nat)
    requires
        0 < periods,
        rate <= 5 * BPS_DENOMINATOR,
        steps <= periods,
    ensures
        compounded(
            amount,
            BPS_DENOMINATOR as nat * periods + rate,
            BPS_DENOMINATOR as nat * periods,
            steps,
        ) <= 402 * amount,
{
    let d = BPS_DENOMINATOR as int;
    let n = periods as int;
    let r = rate as int;
    let v = d * n;
    let u = v + r;
    assert(v > 0) by (nonlinear_arith)
        requires
            v == d * n,
            d > 0,
            n > 0,
    ;
    crate::math_lib::lemma_compounded_grows(amount, u as nat, v as nat, steps, periods);
    let end = compounded(amount, u as nat, v as nat, periods) as int;
    if rate == 0 {
        crate::math_laws::lemma_compounded_unchanged(amount, v as nat, periods);
    } else {
        let many = (16 * periods) as nat;
        let m = many as int;
        let v2 = d * m;
        let u2 = v2 + r;
        assert(v2 == 16 * v) by (nonlinear_arith)
            requires
                v2 == d * m,
                m == 16 * n,
                v == d * n,
        ;
        // growth over n periods, rounded, is at most exact growth
        lemma_compounded_upper(amount, u as nat, v as nat, periods);
        // exact growth over n periods is at most exact growth over 16 n
        lemma_exact_growth_increases(r, periods, many);
        // exact growth over a sixteenth of the 16 n periods is at most 16 / 11
        assert(n * r <= n * (5 * d)) by (nonlinear_arith)
            requires
                r <= 5 * d,
                n > 0,
        ;
        assert(n * (5 * d) == 5 * v) by (nonlinear_arith)
            requires
                v == d * n,
        ;
        lemma_exact_growth_bound(r, v2, periods);
        let x = pow(u, periods);
        let w = pow(v, periods);
        let chunk_u = pow(u2, periods);
        let chunk_v = pow(v2, periods);
        let z = pow(u2, many);
        let y = pow(v2, many);
        lemma_pow_positive(u, periods);
        lemma_pow_positive(v, periods);
        lemma_pow_positive(u2, periods);
        lemma_pow_positive(v2, periods);
        lemma_pow_positive(u2, many);
        lemma_pow_positive(v2, many);
        assert(chunk_u * (11 * v) <= chunk_u * (v2 - n * r)) by (nonlinear_arith)
            requires
                11 * v <= v2 - n * r,
                chunk_u > 0,
        ;
        assert(chunk_u * (11 * v) == (11 * chunk_u) * v) by (nonlinear_arith);
        assert(chunk_v * v2 == (16 * chunk_v) * v) by (nonlinear_arith)
            requires
                v2 == 16 * v,
        ;
        lemma_cancel(v, 16 * chunk_v, 11 * chunk_u);
        // sixteen such chunks: 11^16 * z <= 16^16 * y
        vstd::arithmetic::power::lemma_pow_multiplies(u2, periods, 16);
        vstd::arithmetic::power::lemma_pow_multiplies(v2, periods, 16);
        assert(periods * 16 == many) by (nonlinear_arith)
            requires
                many == 16 * periods,
        ;
        lemma_pow_monotone(11 * chunk_u, 16 * chunk_v, 16);
        lemma_pow_distributes(11, chunk_u, 16);
        lemma_pow_distributes(16, chunk_v, 16);
        lemma_powers_of_11_and_16();
        let c11 = pow(11, 16);
        let c16 = pow(16, 16);
        assert(c11 * z <= c16 * y);
        // chain: end * w <= amount * x, x * y <= z * w
        assert((end * y) * w <= (amount * z) * w) by (nonlinear_arith)
            requires
                end * w <= amount * x,
                x * y <= z * w,
                y > 0,
                amount >= 0,
        ;
        lemma_cancel(w, amount * z, end * y);
        assert((c11 * end) * y <= (c16 * amount) * y) by (nonlinear_arith)
            requires
                end * y <= amount * z,
                c11 * z <= c16 * y,
                c11 > 0,
                amount >= 0,
        ;
        lemma_cancel(y, c16 * amount, c11 * end);
        assert(c16 <= 402 * c11);
        assert(c16 * amount <= (402 * c11) * amount) by (nonlinear_arith)
            requires
                c16 <= 402 * c11,
                amount >= 0,
        ;
        assert((402 * c11) * amount == c11 * (402 * amount)) by (nonlinear_arith);
        lemma_cancel(c11, (402 * amount) as int, end);
    }
}

/// A sufficient condition for [`compound_spec`] to succeed at a rate of up
/// to 500%: 402 times the principal can be multiplied by the step numerator
/// in 128 bits.
pub proof fn lemma_compound_succeeds_at_high_rate(principal: u128, rate_bps: u32, periods: u32)
    requires
        rate_bps <= 5 * BPS_DENOMINATOR,
        402 * principal * step_numerator(rate_bps, periods) <= u128::MAX,
    ensures
        compound_spec(principal, rate_bps, periods) is Ok,
        compound_spec(principal, rate_bps, periods).unwrap() <= 402 * principal,
{
    if principal != 0 && rate_bps != 0 && periods != 0 {
        let numerator = step_numerator(rate_bps, periods);
        let denominator = step_denominator(periods);
        let last = (periods - 1) as nat;
        lemma_compounded_at_most_402_fold(principal as nat, rate_bps as nat, periods as nat, last);
        lemma_compounded_at_most_402_fold(
            principal as nat,
            rate_bps as nat,
            periods as nat,
            periods as nat,
        );
        let before = compounded(principal as nat, numerator, denominator, last);
        assert(before * numerator <= 402 * principal * numerator) by (nonlinear_arith)
            requires
                before <= 402 * principal,
        ;
    }
}

} // verus!
