//! Interest accrual: a pure calculation that rolls a debt's interest
//! forward by the whole periods elapsed since interest was last folded in.
//!
//! The rate is expressed in hundredths of a percent per period, so a scale
//! of 10000 stands for 100%. One recomputation folds `t` whole periods in
//! at once with the simple-interest rule
//! `principal * (10000 + rate * t) / 10000`, truncating; the growth over
//! the principal is added to the outstanding interest. The rule is linear
//! in the elapsed periods: it does not compound across successive calls.

use crate::LedgerError;
use vstd::arithmetic::div_mod::{
    lemma_basic_div, lemma_div_is_ordered, lemma_div_multiples_vanish, lemma_div_pos_is_pos,
    lemma_fundamental_div_mod, lemma_mod_bound,
};
use vstd::arithmetic::mul::{lemma_mul_is_commutative, lemma_mul_inequality};
use vstd::prelude::*;

verus! {

/// Whole periods elapsed at `now` beyond the `n_periods` already folded in.
pub open spec fn periods_elapsed(now: int, n_periods: int, period: int) -> int {
    (now - n_periods * period) / period
}

/// How much the outstanding interest grows when `t` further whole periods
/// are folded in: `principal * (10000 + rate * t) / 10000 - principal`,
/// with truncating division.
pub open spec fn interest_delta(principal: int, rate: int, t: int) -> int {
    principal * (10000 + rate * t) / 10000 - principal
}

/// When some checked step of the accrual computation falls outside `u64`:
/// either `now` lies before the periods already folded in, or a product or
/// sum along the way exceeds `u64::MAX`.
pub open spec fn accrual_overflows(
    principal: int,
    interest: int,
    rate: int,
    period: int,
    n_periods: int,
    now: int,
) -> bool {
    let t = periods_elapsed(now, n_periods, period);
    ||| now < n_periods * period
    ||| rate * t > u64::MAX
    ||| 10000 + rate * t > u64::MAX
    ||| principal * (10000 + rate * t) > u64::MAX
    ||| interest + interest_delta(principal, rate, t) > u64::MAX
    ||| n_periods + t > u64::MAX
}

/// The interest and period count after folding the periods elapsed at `now`
/// into `(interest, n_periods)`, or `ArithmeticError` when a checked step
/// leaves `u64` range. The principal is never touched by accrual.
pub fn accrue(
    principal: u64,
    interest: u64,
    rate: u64,
    period: u64,
    n_periods: u64,
    now: u64,
) -> (r: Result<(u64, u64), LedgerError>)
    requires
        period >= 1,
    ensures
        !accrual_overflows(
            principal as int,
            interest as int,
            rate as int,
            period as int,
            n_periods as int,
            now as int,
        ) ==> periods_elapsed(now as int, n_periods as int, period as int) >= 0 && interest_delta(
            principal as int,
            rate as int,
            periods_elapsed(now as int, n_periods as int, period as int),
        ) >= 0,
        ({
            let t = periods_elapsed(now as int, n_periods as int, period as int);
            if accrual_overflows(
                principal as int,
                interest as int,
                rate as int,
                period as int,
                n_periods as int,
                now as int,
            ) {
                r == Err::<(u64, u64), LedgerError>(LedgerError::ArithmeticError)
            } else {
                r == Ok::<(u64, u64), LedgerError>(
                    (
                        (interest + interest_delta(principal as int, rate as int, t)) as u64,
                        (n_periods + t) as u64,
                    ),
                )
            }
        }),
{
    let folded: u64 = match n_periods.checked_mul(period) {
        Some(v) => v,
        None => {
            return Err(LedgerError::ArithmeticError);
        },
    };
    let since: u64 = match now.checked_sub(folded) {
        Some(v) => v,
        None => {
            return Err(LedgerError::ArithmeticError);
        },
    };
    let t: u64 = since / period;
    assert(t == periods_elapsed(now as int, n_periods as int, period as int));
    let rt: u64 = match rate.checked_mul(t) {
        Some(v) => v,
        None => {
            return Err(LedgerError::ArithmeticError);
        },
    };
    let factor: u64 = match rt.checked_add(10000) {
        Some(v) => v,
        None => {
            return Err(LedgerError::ArithmeticError);
        },
    };
    let scaled: u64 = match principal.checked_mul(factor) {
        Some(v) => v,
        None => {
            return Err(LedgerError::ArithmeticError);
        },
    };
    let grown: u64 = scaled / 10000;
    proof {
        lemma_mul_inequality(10000, factor as int, principal as int);
        lemma_mul_is_commutative(principal as int, factor as int);
        lemma_div_is_ordered(10000 * principal as int, principal as int * factor as int, 10000);
        lemma_div_multiples_vanish(principal as int, 10000);
    }
    let delta: u64 = grown - principal;
    let new_interest: u64 = match interest.checked_add(delta) {
        Some(v) => v,
        None => {
            return Err(LedgerError::ArithmeticError);
        },
    };
    let new_n_periods: u64 = match n_periods.checked_add(t) {
        Some(v) => v,
        None => {
            return Err(LedgerError::ArithmeticError);
        },
    };
    Ok((new_interest, new_n_periods))
}

/// Folding in the elapsed periods brings the count fully up to `now`: no
/// further whole period is left at the same instant, and folding in zero
/// periods adds no interest. Accrual run twice at one time is therefore a
/// no-op the second time.
pub proof fn lemma_accrual_idempotent(
    principal: int,
    rate: int,
    period: int,
    n_periods: int,
    now: int,
)
    requires
        period >= 1,
        principal >= 0,
        rate >= 0,
        n_periods >= 0,
        now >= n_periods * period,
    ensures
        periods_elapsed(now, n_periods + periods_elapsed(now, n_periods, period), period) == 0,
        interest_delta(principal, rate, 0) == 0,
        periods_elapsed(now, n_periods, period) >= 0,
        0 <= now - (n_periods + periods_elapsed(now, n_periods, period)) * period < period,
{
    let d = now - n_periods * period;
    let t = d / period;
    let r = d % period;
    lemma_div_pos_is_pos(d, period);
    lemma_fundamental_div_mod(d, period);
    lemma_mod_bound(d, period);
    assert((n_periods + t) * period == n_periods * period + t * period) by (nonlinear_arith);
    assert(period * t == t * period) by (nonlinear_arith);
    assert(now - (n_periods + t) * period == r);
    lemma_basic_div(r, period);
    lemma_div_multiples_vanish(principal, 10000);
    assert(principal * 10000 == 10000 * principal) by (nonlinear_arith);
}

} // verus!
