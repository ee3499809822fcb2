//! The debt ledger: loan records, their index, and the state machine that
//! advances a loan through borrow, fund, repay and seize.
//!
//! A record's lifecycle state is derived from its fields, never stored:
//! `creditor` unset means requested; set means active; a zero outstanding
//! balance means settled; a released escrow after the term means seized.
//! Records are never deleted. Funding and repayment move funds through the
//! host's value-transfer primitive, so each comes as a pair: a query
//! (`fund_payment`, `repay_payment`) that checks every guard and names the
//! required [`Payment`], and a commit (`fund`, `repay`) the host calls once
//! the transfer went through. The commit re-checks every guard, so a failed
//! call never changes anything.

use crate::accrual;
use crate::registry::Registry;
use crate::{LedgerError, Payment};
use std::collections::HashMap;
use vstd::prelude::*;

verus! {

/// One debt record.
#[derive(Clone, Copy, Debug)]
pub struct Debt {
    /// The account that created the debt: the debtor.
    pub requestor: u64,
    /// The account the principal is paid out to; may differ from the
    /// requestor.
    pub beneficiary: u64,
    /// The account that funded the debt; unset until funded, immutable once
    /// set.
    pub creditor: Option<u64>,
    /// The deadline for funding the request.
    pub request_expiry: u64,
    /// When the debt was funded; meaningful only once `creditor` is set.
    pub term_start: u64,
    /// How long after `term_start` the debt falls due.
    pub term_length: u64,
    /// The remaining principal; never increases once the record exists.
    pub principal: u64,
    /// The remaining accrued interest.
    pub interest: u64,
    /// The rate per period, in hundredths of a percent.
    pub interest_rate: u64,
    /// The duration of one interest period.
    pub interest_period: u64,
    /// How many whole periods are already folded into `interest`.
    pub n_periods: u64,
}

impl Debt {
    /// The argument guards of `borrow`, which hold of every stored record.
    pub open spec fn wf(self) -> bool {
        &&& self.interest_period >= 1
        &&& self.term_length > self.interest_period
    }

    /// The record after folding the whole periods elapsed at `now` into the
    /// interest. The principal is never touched by accrual.
    pub open spec fn accrued(self, now: u64) -> Debt {
        let t = accrual::periods_elapsed(
            now as int,
            self.n_periods as int,
            self.interest_period as int,
        );
        Debt {
            interest: (self.interest + accrual::interest_delta(
                self.principal as int,
                self.interest_rate as int,
                t,
            )) as u64,
            n_periods: (self.n_periods + t) as u64,
            ..self
        }
    }

    /// Whether accrual at `now` falls outside `u64` somewhere.
    pub open spec fn accrual_overflows(self, now: u64) -> bool {
        accrual::accrual_overflows(
            self.principal as int,
            self.interest as int,
            self.interest_rate as int,
            self.interest_period as int,
            self.n_periods as int,
            now as int,
        )
    }

    /// The outstanding balance: principal plus accrued interest.
    pub open spec fn outstanding(self) -> int {
        self.principal + self.interest
    }
}

/// The part of `amount` that goes to interest: interest is paid first.
pub open spec fn interest_payment(debt: Debt, amount: u64) -> int {
    if amount <= debt.interest {
        amount as int
    } else {
        debt.interest as int
    }
}

/// The part of `amount` that goes to the principal: the remainder after
/// interest, clamped to the principal.
pub open spec fn principal_payment(debt: Debt, amount: u64) -> int {
    let rem = amount - interest_payment(debt, amount);
    if rem <= debt.principal {
        rem
    } else {
        debt.principal as int
    }
}

/// The record after applying a payment of `amount`, clamped to the
/// outstanding balance: interest first, the remainder to the principal.
pub open spec fn repaid(debt: Debt, amount: u64) -> Debt {
    Debt {
        interest: (debt.interest - interest_payment(debt, amount)) as u64,
        principal: (debt.principal - principal_payment(debt, amount)) as u64,
        ..debt
    }
}

/// The debt ledger: the records, their enumeration index, and the stored
/// count.
pub struct DebtLedger {
    debts: HashMap<u64, Debt>,
    index_to_id: Vec<u64>,
    count: u64,
}

impl DebtLedger {
    /// The map from debt id to its record.
    pub closed spec fn debts_map(self) -> Map<u64, Debt> {
        self.debts@
    }

    /// The ids in enumeration order, one per record, oldest first.
    pub closed spec fn index_ids(self) -> Seq<u64> {
        self.index_to_id@
    }

    /// The stored debt counter.
    pub closed spec fn spec_count(self) -> u64 {
        self.count
    }

    /// The ledger's invariant: the counter equals the index length, the
    /// index lists each existing debt exactly once, and every record obeys
    /// the borrow guards.
    pub closed spec fn wf(self) -> bool {
        &&& self.count == self.index_to_id@.len()
        &&& self.index_to_id@.no_duplicates()
        &&& forall|i: int|
            0 <= i < self.index_to_id@.len() ==> self.debts@.contains_key(
                #[trigger] self.index_to_id@[i],
            )
        &&& forall|id: u64| #[trigger]
            self.debts@.contains_key(id) ==> self.debts@[id].wf() && self.index_to_id@.contains(
                id,
            )
    }

    /// An empty ledger.
    pub fn new() -> (r: DebtLedger)
        ensures
            r.wf(),
            r.debts_map() == Map::<u64, Debt>::empty(),
            r.index_ids() == Seq::<u64>::empty(),
            r.spec_count() == 0,
    {
        DebtLedger { debts: HashMap::new(), index_to_id: Vec::new(), count: 0 }
    }

    /// The record of `debt_id`, if one exists.
    pub fn get_debt(&self, debt_id: u64) -> (r: Option<Debt>)
        ensures
            r == (if self.debts_map().contains_key(debt_id) {
                Some(self.debts_map()[debt_id])
            } else {
                None::<Debt>
            }),
    {
        match self.debts.get(&debt_id) {
            Some(d) => Some(*d),
            None => None,
        }
    }

    /// The id at enumeration position `index`, if any.
    pub fn get_debt_id(&self, index: u64) -> (r: Option<u64>)
        ensures
            match r {
                Some(id) => index < self.index_ids().len() && id == self.index_ids()[index as int],
                None => index >= self.index_ids().len(),
            },
    {
        if index < self.index_to_id.len() as u64 {
            Some(self.index_to_id[index as usize])
        } else {
            None
        }
    }

    /// The stored debt counter.
    pub fn get_total_debts(&self) -> (r: u64)
        ensures
            r == self.spec_count(),
    {
        self.count
    }

    /// Creates a debt request: the caller becomes the requestor, the record
    /// starts with `creditor` unset, zero interest and zero folded-in
    /// periods, and joins the index. The identifier comes from the host's
    /// id generator; a collision fails `AlreadyExists`. Zero or inverted
    /// durations fail `InvalidArgument`; a counter at its limit fails
    /// `ArithmeticError`. A failed call changes nothing.
    pub fn borrow(
        &mut self,
        caller: u64,
        debt_id: u64,
        beneficiary: u64,
        request_expiry: u64,
        principal: u64,
        interest_rate: u64,
        interest_period: u64,
        term_length: u64,
    ) -> (r: Result<(), LedgerError>)
        requires
            old(self).wf(),
        ensures
            final(self).wf(),
            ({
                let pre = *old(self);
                let post = *final(self);
                if pre.debts_map().contains_key(debt_id) {
                    r == Err::<(), LedgerError>(LedgerError::AlreadyExists) && post == pre
                } else if interest_period == 0 || term_length == 0 || term_length
                    <= interest_period {
                    r == Err::<(), LedgerError>(LedgerError::InvalidArgument) && post == pre
                } else if pre.spec_count() == u64::MAX {
                    r == Err::<(), LedgerError>(LedgerError::ArithmeticError) && post == pre
                } else {
                    &&& r == Ok::<(), LedgerError>(())
                    &&& post.debts_map() == pre.debts_map().insert(
                        debt_id,
                        Debt {
                            requestor: caller,
                            beneficiary,
                            creditor: None,
                            request_expiry,
                            term_start: 0,
                            term_length,
                            principal,
                            interest: 0,
                            interest_rate,
                            interest_period,
                            n_periods: 0,
                        },
                    )
                    &&& post.index_ids() == pre.index_ids().push(debt_id)
                    &&& post.spec_count() == pre.spec_count() + 1
                }
            }),
    {
        if self.debts.contains_key(&debt_id) {
            return Err(LedgerError::AlreadyExists);
        }
        if interest_period == 0 || term_length == 0 || term_length <= interest_period {
            return Err(LedgerError::InvalidArgument);
        }
        if self.count == u64::MAX {
            return Err(LedgerError::ArithmeticError);
        }
        let record = Debt {
            requestor: caller,
            beneficiary,
            creditor: None,
            request_expiry,
            term_start: 0,
            term_length,
            principal,
            interest: 0,
            interest_rate,
            interest_period,
            n_periods: 0,
        };
        self.count = self.count + 1;
        self.index_to_id.push(debt_id);
        self.debts.insert(debt_id, record);
        proof {
            let pre = *old(self);
            assert forall|a: int, b: int|
                0 <= a < self.index_to_id@.len() && 0 <= b < self.index_to_id@.len() && a != b
                implies self.index_to_id@[a] != self.index_to_id@[b] by {
                if a < pre.index_to_id@.len() && b < pre.index_to_id@.len() {
                    assert(pre.index_to_id@[a] != pre.index_to_id@[b]);
                } else if a < pre.index_to_id@.len() {
                    assert(pre.debts@.contains_key(pre.index_to_id@[a]));
                } else if b < pre.index_to_id@.len() {
                    assert(pre.debts@.contains_key(pre.index_to_id@[b]));
                }
            }
            assert forall|id: u64| #[trigger]
                self.debts@.contains_key(id) implies self.debts@[id].wf()
                && self.index_to_id@.contains(id) by {
                if id == debt_id {
                    assert(self.index_to_id@[pre.index_to_id@.len() as int] == debt_id);
                } else {
                    assert(pre.debts@.contains_key(id));
                    let i = choose|i: int|
                        0 <= i < pre.index_to_id@.len() && pre.index_to_id@[i] == id;
                    assert(self.index_to_id@[i] == id);
                }
            }
        }
        Ok(())
    }

    /// Why funding `debt_id` at `now` would be refused, if it would be:
    /// unknown debt, a passed funding deadline, an already-set creditor, or
    /// no collateral escrowed under the debt's key.
    pub open spec fn fund_refusal(self, debt_id: u64, now: u64, registry: Registry) -> Option<
        LedgerError,
    > {
        if !self.debts_map().contains_key(debt_id) {
            Some(LedgerError::NotFound)
        } else if now > self.debts_map()[debt_id].request_expiry {
            Some(LedgerError::Expired)
        } else if self.debts_map()[debt_id].creditor is Some {
            Some(LedgerError::InvalidState)
        } else if !registry.escrow_map().contains_key(debt_id) {
            Some(LedgerError::InsufficientCollateral)
        } else {
            None
        }
    }

    /// The transfer a funding of `debt_id` requires: the principal moves
    /// from the caller to the beneficiary. Checks every guard of [`Self::fund`]
    /// and changes nothing; the host performs the payment and then commits
    /// with `fund`.
    pub fn fund_payment(&self, caller: u64, debt_id: u64, now: u64, registry: &Registry) -> (r:
        Result<Payment, LedgerError>)
        ensures
            ({
                match self.fund_refusal(debt_id, now, *registry) {
                    Some(e) => r == Err::<Payment, LedgerError>(e),
                    None => r == Ok::<Payment, LedgerError>(
                        Payment {
                            from: caller,
                            to: self.debts_map()[debt_id].beneficiary,
                            amount: self.debts_map()[debt_id].principal,
                        },
                    ),
                }
            }),
    {
        let d: Debt = match self.debts.get(&debt_id) {
            Some(d) => *d,
            None => {
                return Err(LedgerError::NotFound);
            },
        };
        if now > d.request_expiry {
            return Err(LedgerError::Expired);
        }
        if d.creditor.is_some() {
            return Err(LedgerError::InvalidState);
        }
        match registry.get_escrow(debt_id) {
            Some(_) => {},
            None => {
                return Err(LedgerError::InsufficientCollateral);
            },
        }
        Ok(Payment { from: caller, to: d.beneficiary, amount: d.principal })
    }

    /// Commits a funding: records the caller as creditor and starts the
    /// term clock at `now`. The same guards as [`Self::fund_payment`]; the
    /// principal is untouched. A failed call changes nothing.
    pub fn fund(&mut self, caller: u64, debt_id: u64, now: u64, registry: &Registry) -> (r: Result<
        (),
        LedgerError,
    >)
        requires
            old(self).wf(),
        ensures
            final(self).wf(),
            ({
                let pre = *old(self);
                let post = *final(self);
                match pre.fund_refusal(debt_id, now, *registry) {
                    Some(e) => r == Err::<(), LedgerError>(e) && post == pre,
                    None => {
                        &&& r == Ok::<(), LedgerError>(())
                        &&& post.debts_map() == pre.debts_map().insert(
                            debt_id,
                            Debt {
                                creditor: Some(caller),
                                term_start: now,
                                ..pre.debts_map()[debt_id]
                            },
                        )
                        &&& post.index_ids() == pre.index_ids()
                        &&& post.spec_count() == pre.spec_count()
                    },
                }
            }),
    {
        let d: Debt = match self.debts.get(&debt_id) {
            Some(d) => *d,
            None => {
                return Err(LedgerError::NotFound);
            },
        };
        if now > d.request_expiry {
            return Err(LedgerError::Expired);
        }
        if d.creditor.is_some() {
            return Err(LedgerError::InvalidState);
        }
        match registry.get_escrow(debt_id) {
            Some(_) => {},
            None => {
                return Err(LedgerError::InsufficientCollateral);
            },
        }
        let funded = Debt { creditor: Some(caller), term_start: now, ..d };
        self.debts.insert(debt_id, funded);
        proof {
            lemma_wf_after_insert(*old(self), *self, debt_id, funded);
        }
        Ok(())
    }

    /// Brings `debt_id`'s interest current: folds the whole periods elapsed
    /// at `now` into `interest` and `n_periods` by the simple-interest
    /// rule. Fails `NotFound` for an unknown debt and `ArithmeticError`
    /// when a checked step would overflow; a failed call changes nothing.
    /// The principal is untouched, and neither `interest` nor `n_periods`
    /// ever shrinks.
    pub fn update_balance(&mut self, debt_id: u64, now: u64) -> (r: Result<(), LedgerError>)
        requires
            old(self).wf(),
        ensures
            final(self).wf(),
            ({
                let pre = *old(self);
                let post = *final(self);
                if !pre.debts_map().contains_key(debt_id) {
                    r == Err::<(), LedgerError>(LedgerError::NotFound) && post == pre
                } else if pre.debts_map()[debt_id].accrual_overflows(now) {
                    r == Err::<(), LedgerError>(LedgerError::ArithmeticError) && post == pre
                } else {
                    &&& r == Ok::<(), LedgerError>(())
                    &&& post.debts_map() == pre.debts_map().insert(
                        debt_id,
                        pre.debts_map()[debt_id].accrued(now),
                    )
                    &&& post.debts_map()[debt_id].principal == pre.debts_map()[debt_id].principal
                    &&& post.debts_map()[debt_id].interest >= pre.debts_map()[debt_id].interest
                    &&& post.debts_map()[debt_id].n_periods >= pre.debts_map()[debt_id].n_periods
                    &&& post.index_ids() == pre.index_ids()
                    &&& post.spec_count() == pre.spec_count()
                }
            }),
    {
        let d: Debt = match self.debts.get(&debt_id) {
            Some(d) => *d,
            None => {
                return Err(LedgerError::NotFound);
            },
        };
        let updated: (u64, u64) = match accrual::accrue(
            d.principal,
            d.interest,
            d.interest_rate,
            d.interest_period,
            d.n_periods,
            now,
        ) {
            Ok(v) => v,
            Err(e) => {
                return Err(e);
            },
        };
        let current = Debt { interest: updated.0, n_periods: updated.1, ..d };
        self.debts.insert(debt_id, current);
        proof {
            lemma_wf_after_insert(*old(self), *self, debt_id, current);
        }
        Ok(())
    }

    /// Why repaying `amount` on `debt_id` at `now` would be refused, if it
    /// would be: unknown debt, overflowing accrual, a never-funded debt, a
    /// closed repayment window, or — where the payment settles the debt — a
    /// missing escrow entry or a release counter at its limit.
    pub open spec fn repay_refusal(
        self,
        debt_id: u64,
        now: u64,
        amount: u64,
        registry: Registry,
    ) -> Option<LedgerError> {
        if !self.debts_map().contains_key(debt_id) {
            Some(LedgerError::NotFound)
        } else {
            let d = self.debts_map()[debt_id];
            if d.accrual_overflows(now) {
                Some(LedgerError::ArithmeticError)
            } else if d.creditor is None {
                Some(LedgerError::InvalidState)
            } else if now > d.term_start + d.term_length {
                Some(LedgerError::PastDue)
            } else {
                let done = repaid(d.accrued(now), amount);
                if done.principal == 0 && done.interest == 0 {
                    if !registry.escrow_map().contains_key(debt_id) {
                        Some(LedgerError::NotFound)
                    } else if registry.count_of(d.requestor) == u64::MAX {
                        Some(LedgerError::ArithmeticError)
                    } else {
                        None
                    }
                } else {
                    None
                }
            }
        }
    }

    /// The transfer a repayment requires: the payment, clamped to the
    /// outstanding balance after accrual, moves from the caller to the
    /// creditor. Checks every guard of [`Self::repay`] and changes nothing;
    /// the host performs the payment and then commits with `repay`.
    pub fn repay_payment(
        &self,
        caller: u64,
        debt_id: u64,
        now: u64,
        amount: u64,
        registry: &Registry,
    ) -> (r: Result<Payment, LedgerError>)
        requires
            self.wf(),
            registry.wf(),
        ensures
            ({
                match self.repay_refusal(debt_id, now, amount, *registry) {
                    Some(e) => r == Err::<Payment, LedgerError>(e),
                    None => {
                        let acc = self.debts_map()[debt_id].accrued(now);
                        r == Ok::<Payment, LedgerError>(
                            Payment {
                                from: caller,
                                to: self.debts_map()[debt_id].creditor->Some_0,
                                amount: (if amount as int <= acc.outstanding() {
                                    amount as int
                                } else {
                                    acc.outstanding()
                                }) as u64,
                            },
                        )
                    },
                }
            }),
    {
        let d: Debt = match self.debts.get(&debt_id) {
            Some(d) => *d,
            None => {
                return Err(LedgerError::NotFound);
            },
        };
        let updated: (u64, u64) = match accrual::accrue(
            d.principal,
            d.interest,
            d.interest_rate,
            d.interest_period,
            d.n_periods,
            now,
        ) {
            Ok(v) => v,
            Err(e) => {
                return Err(e);
            },
        };
        let creditor: u64 = match d.creditor {
            Some(c) => c,
            None => {
                return Err(LedgerError::InvalidState);
            },
        };
        let past_due: bool = match d.term_start.checked_add(d.term_length) {
            Some(term_end) => now > term_end,
            None => false,
        };
        if past_due {
            return Err(LedgerError::PastDue);
        }
        let acc_interest: u64 = updated.0;
        let pay_interest: u64 = if amount <= acc_interest {
            amount
        } else {
            acc_interest
        };
        let rem: u64 = amount - pay_interest;
        let pay_principal: u64 = if rem <= d.principal {
            rem
        } else {
            d.principal
        };
        if acc_interest - pay_interest == 0 && d.principal - pay_principal == 0 {
            match registry.get_escrow(debt_id) {
                Some(_) => {},
                None => {
                    return Err(LedgerError::NotFound);
                },
            }
            if registry.balance_of(d.requestor) == u64::MAX {
                return Err(LedgerError::ArithmeticError);
            }
        }
        Ok(Payment { from: caller, to: creditor, amount: pay_interest + pay_principal })
    }

    /// Commits a repayment: brings the interest current, applies the
    /// payment — clamped to the outstanding balance — to interest first and
    /// the remainder to the principal, and, when the debt is fully
    /// settled, releases the escrowed collateral back to the requestor.
    /// Neither the principal nor the accrued interest ever grows from a
    /// repayment. The same guards as [`Self::repay_payment`]; a failed call
    /// changes nothing.
    pub fn repay(
        &mut self,
        caller: u64,
        debt_id: u64,
        now: u64,
        amount: u64,
        registry: &mut Registry,
    ) -> (r: Result<(), LedgerError>)
        requires
            old(self).wf(),
            old(registry).wf(),
        ensures
            final(self).wf(),
            final(registry).wf(),
            ({
                let pre = *old(self);
                let post = *final(self);
                let reg_pre = *old(registry);
                let reg_post = *final(registry);
                match pre.repay_refusal(debt_id, now, amount, reg_pre) {
                    Some(e) => r == Err::<(), LedgerError>(e) && post == pre && reg_post
                        == reg_pre,
                    None => {
                        let acc = pre.debts_map()[debt_id].accrued(now);
                        let done = repaid(acc, amount);
                        &&& r == Ok::<(), LedgerError>(())
                        &&& post.debts_map() == pre.debts_map().insert(debt_id, done)
                        &&& post.debts_map()[debt_id].principal <= pre.debts_map()[
                            debt_id].principal
                        &&& post.debts_map()[debt_id].interest <= acc.interest
                        &&& post.index_ids() == pre.index_ids()
                        &&& post.spec_count() == pre.spec_count()
                        &&& if done.principal == 0 && done.interest == 0 {
                            Registry::release_effect(reg_pre, reg_post, acc.requestor, debt_id)
                        } else {
                            reg_post == reg_pre
                        }
                    },
                }
            }),
    {
        let d: Debt = match self.debts.get(&debt_id) {
            Some(d) => *d,
            None => {
                return Err(LedgerError::NotFound);
            },
        };
        let updated: (u64, u64) = match accrual::accrue(
            d.principal,
            d.interest,
            d.interest_rate,
            d.interest_period,
            d.n_periods,
            now,
        ) {
            Ok(v) => v,
            Err(e) => {
                return Err(e);
            },
        };
        match d.creditor {
            Some(_) => {},
            None => {
                return Err(LedgerError::InvalidState);
            },
        }
        let past_due: bool = match d.term_start.checked_add(d.term_length) {
            Some(term_end) => now > term_end,
            None => false,
        };
        if past_due {
            return Err(LedgerError::PastDue);
        }
        let acc_interest: u64 = updated.0;
        let pay_interest: u64 = if amount <= acc_interest {
            amount
        } else {
            acc_interest
        };
        let rem: u64 = amount - pay_interest;
        let pay_principal: u64 = if rem <= d.principal {
            rem
        } else {
            d.principal
        };
        let done_interest: u64 = acc_interest - pay_interest;
        let done_principal: u64 = d.principal - pay_principal;
        if done_interest == 0 && done_principal == 0 {
            match registry.get_escrow(debt_id) {
                Some(_) => {},
                None => {
                    return Err(LedgerError::NotFound);
                },
            }
            if registry.balance_of(d.requestor) == u64::MAX {
                return Err(LedgerError::ArithmeticError);
            }
            let released = registry.escrow_release(d.requestor, debt_id);
            match released {
                Ok(()) => {},
                Err(_) => {
                    proof {
                        assert(false);
                    }
                    return Err(LedgerError::ArithmeticError);
                },
            }
        }
        let done = Debt {
            interest: done_interest,
            principal: done_principal,
            n_periods: updated.1,
            ..d
        };
        self.debts.insert(debt_id, done);
        proof {
            lemma_wf_after_insert(*old(self), *self, debt_id, done);
        }
        Ok(())
    }

    /// Why seizing `debt_id` at `now` would be refused, if it would be:
    /// unknown debt, overflowing accrual, a never-funded debt, a term that
    /// has not ended, a balance already settled, a missing escrow entry, or
    /// a release counter at its limit.
    pub open spec fn seize_refusal(self, debt_id: u64, now: u64, registry: Registry) -> Option<
        LedgerError,
    > {
        if !self.debts_map().contains_key(debt_id) {
            Some(LedgerError::NotFound)
        } else {
            let d = self.debts_map()[debt_id];
            if d.accrual_overflows(now) {
                Some(LedgerError::ArithmeticError)
            } else if d.creditor is None {
                Some(LedgerError::InvalidState)
            } else if now < d.term_start + d.term_length {
                Some(LedgerError::NotYetDue)
            } else if d.accrued(now).outstanding() == 0 {
                Some(LedgerError::AlreadySettled)
            } else if !registry.escrow_map().contains_key(debt_id) {
                Some(LedgerError::NotFound)
            } else if registry.count_of(d.creditor->Some_0) == u64::MAX {
                Some(LedgerError::ArithmeticError)
            } else {
                None
            }
        }
    }

    /// Seizes the collateral of a defaulted debt: brings the interest
    /// current, and releases the escrowed asset to the creditor. Anyone may
    /// trigger it once the term has ended and a balance is outstanding; the
    /// caller's identity is not required to equal the creditor. The debt
    /// record keeps its balance for history; only the accrual is folded in.
    /// A failed call changes nothing.
    pub fn seize(&mut self, caller: u64, debt_id: u64, now: u64, registry: &mut Registry) -> (r:
        Result<(), LedgerError>)
        requires
            old(self).wf(),
            old(registry).wf(),
        ensures
            final(self).wf(),
            final(registry).wf(),
            ({
                let pre = *old(self);
                let post = *final(self);
                let reg_pre = *old(registry);
                let reg_post = *final(registry);
                match pre.seize_refusal(debt_id, now, reg_pre) {
                    Some(e) => r == Err::<(), LedgerError>(e) && post == pre && reg_post
                        == reg_pre,
                    None => {
                        let acc = pre.debts_map()[debt_id].accrued(now);
                        &&& r == Ok::<(), LedgerError>(())
                        &&& post.debts_map() == pre.debts_map().insert(debt_id, acc)
                        &&& post.debts_map()[debt_id].principal == pre.debts_map()[
                            debt_id].principal
                        &&& post.index_ids() == pre.index_ids()
                        &&& post.spec_count() == pre.spec_count()
                        &&& Registry::release_effect(
                            reg_pre,
                            reg_post,
                            acc.creditor->Some_0,
                            debt_id,
                        )
                    },
                }
            }),
    {
        let d: Debt = match self.debts.get(&debt_id) {
            Some(d) => *d,
            None => {
                return Err(LedgerError::NotFound);
            },
        };
        let updated: (u64, u64) = match accrual::accrue(
            d.principal,
            d.interest,
            d.interest_rate,
            d.interest_period,
            d.n_periods,
            now,
        ) {
            Ok(v) => v,
            Err(e) => {
                return Err(e);
            },
        };
        let creditor: u64 = match d.creditor {
            Some(c) => c,
            None => {
                return Err(LedgerError::InvalidState);
            },
        };
        let not_yet_due: bool = match d.term_start.checked_add(d.term_length) {
            Some(term_end) => now < term_end,
            None => true,
        };
        if not_yet_due {
            return Err(LedgerError::NotYetDue);
        }
        if d.principal == 0 && updated.0 == 0 {
            return Err(LedgerError::AlreadySettled);
        }
        match registry.get_escrow(debt_id) {
            Some(_) => {},
            None => {
                return Err(LedgerError::NotFound);
            },
        }
        if registry.balance_of(creditor) == u64::MAX {
            return Err(LedgerError::ArithmeticError);
        }
        let released = registry.escrow_release(creditor, debt_id);
        match released {
            Ok(()) => {},
            Err(_) => {
                proof {
                    assert(false);
                }
                return Err(LedgerError::ArithmeticError);
            },
        }
        let current = Debt { interest: updated.0, n_periods: updated.1, ..d };
        self.debts.insert(debt_id, current);
        proof {
            lemma_wf_after_insert(*old(self), *self, debt_id, current);
        }
        Ok(())
    }
}

/// Law: bringing the balance current twice at one time changes nothing the
/// second time. The record accrual produces is a fixed point of accrual at
/// the same instant, and the second accrual cannot overflow.
pub proof fn lemma_update_balance_idempotent(debt: Debt, now: u64)
    requires
        debt.wf(),
        !debt.accrual_overflows(now),
    ensures
        !debt.accrued(now).accrual_overflows(now),
        debt.accrued(now).accrued(now) == debt.accrued(now),
{
    let per = debt.interest_period as int;
    let n = debt.n_periods as int;
    let p = debt.principal as int;
    let rate = debt.interest_rate as int;
    let t = accrual::periods_elapsed(now as int, n, per);
    accrual::lemma_accrual_idempotent(p, rate, per, n, now as int);
    let d1 = debt.accrued(now);
    assert(d1.n_periods as int == n + t);
    assert(accrual::periods_elapsed(now as int, d1.n_periods as int, per) == 0);
    assert(p * (10000 + rate * 0) <= p * (10000 + rate * t)) by (nonlinear_arith)
        requires
            p >= 0,
            rate >= 0,
            t >= 0,
    ;
    assert(accrual::interest_delta(p, rate, 0) == 0);
}

/// Law: once a debt exists its principal never increases — funding leaves
/// it untouched and a repayment only lowers it — and a repayment never
/// raises the interest above what accrual alone brings it to. When no
/// whole period has elapsed, a repayment cannot raise the interest at all.
pub proof fn lemma_repay_monotonic(debt: Debt, now: u64, amount: u64)
    requires
        debt.wf(),
        !debt.accrual_overflows(now),
    ensures
        repaid(debt.accrued(now), amount).principal <= debt.principal,
        repaid(debt.accrued(now), amount).interest <= debt.accrued(now).interest,
        accrual::periods_elapsed(
            now as int,
            debt.n_periods as int,
            debt.interest_period as int,
        ) == 0 ==> repaid(debt.accrued(now), amount).interest <= debt.interest,
{
    accrual::lemma_accrual_idempotent(
        debt.principal as int,
        debt.interest_rate as int,
        debt.interest_period as int,
        debt.n_periods as int,
        now as int,
    );
    if accrual::periods_elapsed(now as int, debt.n_periods as int, debt.interest_period as int)
        == 0 {
        assert(accrual::interest_delta(debt.principal as int, debt.interest_rate as int, 0) == 0);
    }
}

/// Keeps the ledger invariant across an insert that overwrites an existing
/// record with another well-formed one.
proof fn lemma_wf_after_insert(pre: DebtLedger, post: DebtLedger, debt_id: u64, d: Debt)
    requires
        pre.wf(),
        pre.debts@.contains_key(debt_id),
        d.wf(),
        post.debts@ == pre.debts@.insert(debt_id, d),
        post.index_to_id@ == pre.index_to_id@,
        post.count == pre.count,
    ensures
        post.wf(),
{
    assert forall|id: u64| #[trigger]
        post.debts@.contains_key(id) implies post.debts@[id].wf() && post.index_to_id@.contains(
        id,
    ) by {
        if id != debt_id {
            assert(pre.debts@.contains_key(id));
        }
    }
}

} // verus!
