//! Scenario and error-path coverage: duplicate requests, funding against
//! collateral, the integer interest rule, seizure timing, clamped
//! repayment, idempotent accrual, enumeration bookkeeping, and one input
//! for every error variant.

use collateral::debt::DebtLedger;
use collateral::registry::Registry;
use collateral::requests::{OrderStatus, RequestBook};
use collateral::{LedgerError, Payment};
use std::collections::HashMap;

/// The host's id generator: the same inputs give the same identifier.
fn gen_id(entropy: u64, account: u64, time: u64) -> u64 {
    entropy
        .wrapping_mul(6364136223846793005)
        .wrapping_add(account.wrapping_mul(1442695040888963407))
        .wrapping_add(time)
}

/// The host's value-transfer primitive over an in-memory balance book.
fn pay(bank: &mut HashMap<u64, u64>, p: Payment) {
    let from = *bank.get(&p.from).unwrap_or(&0);
    let to = *bank.get(&p.to).unwrap_or(&0);
    assert!(from >= p.amount);
    bank.insert(p.from, from - p.amount);
    bank.insert(p.to, to + p.amount);
}

/// Mints a token for `owner`, borrows against it and funds the debt at
/// time 0, returning the registry, the ledger, the balance book, the token
/// and the debt id.
fn funded_debt(
    owner: u64,
    creditor: u64,
    principal: u64,
    rate: u64,
    period: u64,
    term: u64,
) -> (Registry, DebtLedger, HashMap<u64, u64>, u64, u64) {
    let mut reg = Registry::new();
    let mut debts = DebtLedger::new();
    let mut bank = HashMap::new();
    bank.insert(owner, 100);
    bank.insert(creditor, principal);
    reg.mint(owner, gen_id(42, owner, 0)).unwrap();
    let token_id = reg.token_by_index(0).unwrap();
    debts
        .borrow(owner, gen_id(7, owner, 0), owner, 1000, principal, rate, period, term)
        .unwrap();
    let debt_id = debts.get_debt_id(0).unwrap();
    reg.escrow_lock(owner, token_id, debt_id).unwrap();
    let funding = debts.fund_payment(creditor, debt_id, 0, &reg).unwrap();
    pay(&mut bank, funding);
    debts.fund(creditor, debt_id, 0, &reg).unwrap();
    (reg, debts, bank, token_id, debt_id)
}

#[test]
fn scenario_duplicate_borrow_collides() {
    // two borrows from the same caller at the same logical time draw the
    // same identifier, so the second fails
    let mut debts = DebtLedger::new();
    let first = gen_id(3, 5, 40);
    let second = gen_id(3, 5, 40);
    assert!(debts.borrow(5, first, 6, 100, 50, 0, 1, 2).is_ok());
    assert_eq!(
        debts.borrow(5, second, 6, 100, 50, 0, 1, 2),
        Err(LedgerError::AlreadyExists)
    );
}

#[test]
fn scenario_fund_needs_collateral() {
    let mut reg = Registry::new();
    let mut debts = DebtLedger::new();
    let mut bank = HashMap::new();
    bank.insert(0, 100);
    bank.insert(1, 100);
    reg.mint(0, gen_id(42, 0, 0)).unwrap();
    let token_id = reg.token_by_index(0).unwrap();
    debts.borrow(0, gen_id(7, 0, 0), 0, 10, 100, 0, 1, 2).unwrap();
    let debt_id = debts.get_debt_id(0).unwrap();

    // before the asset is locked, funding is refused
    assert_eq!(
        debts.fund_payment(1, debt_id, 0, &reg),
        Err(LedgerError::InsufficientCollateral)
    );
    assert_eq!(
        debts.fund(1, debt_id, 0, &reg),
        Err(LedgerError::InsufficientCollateral)
    );

    // after locking, funding succeeds and the beneficiary gains 100
    reg.escrow_lock(0, token_id, debt_id).unwrap();
    let funding = debts.fund_payment(1, debt_id, 0, &reg).unwrap();
    assert_eq!(funding, Payment { from: 1, to: 0, amount: 100 });
    pay(&mut bank, funding);
    assert!(debts.fund(1, debt_id, 0, &reg).is_ok());
    assert_eq!(*bank.get(&0).unwrap(), 200);
    // funding records the creditor and the term start; the principal is
    // untouched
    let d = debts.get_debt(debt_id).unwrap();
    assert_eq!(d.creditor, Some(1));
    assert_eq!(d.principal, 100);
}

#[test]
fn scenario_interest_truncates() {
    // rate 10 is 0.10% per period: two periods on 100 make 0.2, which the
    // integer rule truncates to nothing
    let (_reg, mut debts, _bank, _token, debt_id) = funded_debt(1, 2, 100, 10, 10, 500);
    assert!(debts.update_balance(debt_id, 6).is_ok());
    assert_eq!(debts.get_debt(debt_id).unwrap().principal, 100);
    assert_eq!(debts.get_debt(debt_id).unwrap().interest, 0);
    assert!(debts.update_balance(debt_id, 20).is_ok());
    assert_eq!(debts.get_debt(debt_id).unwrap().interest, 0);
    assert_eq!(debts.get_debt(debt_id).unwrap().n_periods, 2);
}

#[test]
fn scenario_interest_exact_units() {
    // rate 100 is 1% per period: two periods on 100 make exactly 2
    let (_reg, mut debts, _bank, _token, debt_id) = funded_debt(1, 2, 100, 100, 10, 500);
    assert!(debts.update_balance(debt_id, 20).is_ok());
    assert_eq!(debts.get_debt(debt_id).unwrap().principal, 100);
    assert_eq!(debts.get_debt(debt_id).unwrap().interest, 2);

    // rate 1000 is 10% per period: two periods on 100 make 20
    let (_reg2, mut debts2, _bank2, _token2, debt_id2) = funded_debt(1, 2, 100, 1000, 10, 500);
    assert!(debts2.update_balance(debt_id2, 20).is_ok());
    assert_eq!(debts2.get_debt(debt_id2).unwrap().interest, 20);
}

#[test]
fn scenario_update_balance_idempotent() {
    let (_reg, mut debts, _bank, _token, debt_id) = funded_debt(1, 2, 100, 1000, 10, 500);
    assert!(debts.update_balance(debt_id, 25).is_ok());
    let once = debts.get_debt(debt_id).unwrap();
    assert_eq!(once.interest, 20);
    assert_eq!(once.n_periods, 2);
    // no time passes: the second call changes nothing
    assert!(debts.update_balance(debt_id, 25).is_ok());
    let twice = debts.get_debt(debt_id).unwrap();
    assert_eq!(twice.interest, once.interest);
    assert_eq!(twice.n_periods, once.n_periods);
}

#[test]
fn scenario_seize_timing() {
    let (mut reg, mut debts, _bank, token_id, debt_id) = funded_debt(1, 2, 100, 0, 1, 3);
    // before 3 time units have elapsed, seizure is refused
    assert_eq!(debts.seize(2, debt_id, 2, &mut reg), Err(LedgerError::NotYetDue));
    // at the term end with a nonzero balance, the creditor takes the asset
    assert!(debts.seize(2, debt_id, 3, &mut reg).is_ok());
    assert_eq!(reg.owner_of(token_id), Some(2));
    assert_eq!(reg.get_escrow(debt_id), None);
}

#[test]
fn scenario_overpayment_is_clamped() {
    let (mut reg, mut debts, mut bank, token_id, debt_id) = funded_debt(1, 2, 100, 0, 1, 5);
    // 150 offered, 100 outstanding: only the outstanding balance moves
    let repayment = debts.repay_payment(1, debt_id, 0, 150, &reg).unwrap();
    assert_eq!(repayment, Payment { from: 1, to: 2, amount: 100 });
    pay(&mut bank, repayment);
    assert!(debts.repay(1, debt_id, 0, 150, &mut reg).is_ok());
    let d = debts.get_debt(debt_id).unwrap();
    assert_eq!(d.principal, 0);
    assert_eq!(d.interest, 0);
    // full settlement returns the collateral to the requestor
    assert_eq!(reg.owner_of(token_id), Some(1));
    assert_eq!(*bank.get(&2).unwrap(), 100);
}

#[test]
fn scenario_interest_paid_before_principal() {
    let (mut reg, mut debts, mut bank, _token, debt_id) = funded_debt(1, 2, 100, 1000, 10, 500);
    // at time 20 the debt owes 100 principal and 20 interest; paying 30
    // clears the interest and 10 of the principal
    let repayment = debts.repay_payment(1, debt_id, 20, 30, &reg).unwrap();
    assert_eq!(repayment.amount, 30);
    pay(&mut bank, repayment);
    assert!(debts.repay(1, debt_id, 20, 30, &mut reg).is_ok());
    let d = debts.get_debt(debt_id).unwrap();
    assert_eq!(d.interest, 0);
    assert_eq!(d.principal, 90);
}

#[test]
fn scenario_counts_follow_escrow() {
    let mut reg = Registry::new();
    reg.mint(1, 11).unwrap();
    reg.mint(1, 12).unwrap();
    reg.mint(2, 21).unwrap();
    assert_eq!(reg.balance_of(1), 2);
    assert_eq!(reg.balance_of(2), 1);
    assert_eq!(reg.total_supply(), 3);
    // locking takes the asset out of its owner's enumeration but not out of
    // the total supply
    reg.escrow_lock(1, 11, 900).unwrap();
    assert_eq!(reg.balance_of(1), 1);
    assert_eq!(reg.total_supply(), 3);
    assert_eq!(reg.owner_of(11), None);
    assert_eq!(reg.get_escrow(900), Some(11));
    // the remaining counts plus the one escrow entry cover the supply
    assert_eq!(reg.balance_of(1) + reg.balance_of(2) + 1, reg.total_supply());
}

#[test]
fn approval_allows_transfer() {
    let mut reg = Registry::new();
    reg.mint(1, 11).unwrap();
    assert!(reg.approve(1, 5, 11).is_ok());
    assert_eq!(reg.get_approved(11), Some(5));
    // the approved spender moves the asset; the approval is cleared
    assert!(reg.transfer_from(5, 1, 6, 11).is_ok());
    assert_eq!(reg.owner_of(11), Some(6));
    assert_eq!(reg.get_approved(11), None);
    assert_eq!(reg.balance_of(1), 0);
    assert_eq!(reg.balance_of(6), 1);
}

#[test]
fn operator_acts_for_owner() {
    let mut reg = Registry::new();
    reg.mint(1, 11).unwrap();
    assert!(reg.set_approval_for_all(1, 7, true).is_ok());
    assert!(reg.is_approved_for_all(1, 7));
    assert!(reg.transfer_from(7, 1, 8, 11).is_ok());
    assert_eq!(reg.owner_of(11), Some(8));
    // withdrawing the approval takes the power away again
    assert!(reg.set_approval_for_all(8, 7, true).is_ok());
    assert!(reg.set_approval_for_all(8, 7, false).is_ok());
    assert!(!reg.is_approved_for_all(8, 7));
    assert_eq!(reg.transfer_from(7, 8, 1, 11), Err(LedgerError::Unauthorized));
}

#[test]
fn burn_shrinks_both_enumerations() {
    let mut reg = Registry::new();
    reg.mint(1, 11).unwrap();
    reg.mint(1, 12).unwrap();
    assert!(reg.burn(11).is_ok());
    assert_eq!(reg.total_supply(), 1);
    assert_eq!(reg.balance_of(1), 1);
    assert_eq!(reg.owner_of(11), None);
    assert_eq!(reg.token_by_index(0), Some(12));
    // an escrowed asset has no owner and cannot be burned
    reg.escrow_lock(1, 12, 900).unwrap();
    assert_eq!(reg.burn(12), Err(LedgerError::NotFound));
}

#[test]
fn safe_transfer_needs_existential_deposit() {
    let mut reg = Registry::new();
    reg.mint(1, 11).unwrap();
    // the recipient's externally read free balance is zero
    assert_eq!(
        reg.safe_transfer_from(1, 1, 6, 0, 11),
        Err(LedgerError::InvalidArgument)
    );
    assert!(reg.safe_transfer_from(1, 1, 6, 50, 11).is_ok());
    assert_eq!(reg.owner_of(11), Some(6));
}

#[test]
fn error_not_found() {
    let mut reg = Registry::new();
    let mut debts = DebtLedger::new();
    assert_eq!(debts.fund(1, 99, 0, &reg), Err(LedgerError::NotFound));
    assert_eq!(debts.update_balance(99, 0), Err(LedgerError::NotFound));
    assert_eq!(debts.repay(1, 99, 0, 10, &mut reg), Err(LedgerError::NotFound));
    assert_eq!(debts.seize(1, 99, 0, &mut reg), Err(LedgerError::NotFound));
    assert_eq!(reg.approve(1, 2, 99), Err(LedgerError::NotFound));
    assert_eq!(reg.burn(99), Err(LedgerError::NotFound));
}

#[test]
fn error_already_exists() {
    let mut reg = Registry::new();
    reg.mint(1, 11).unwrap();
    assert_eq!(reg.mint(2, 11), Err(LedgerError::AlreadyExists));
    // a second asset cannot be locked under an occupied key
    reg.mint(1, 12).unwrap();
    reg.escrow_lock(1, 11, 900).unwrap();
    assert_eq!(reg.escrow_lock(1, 12, 900), Err(LedgerError::AlreadyExists));
    let mut book = RequestBook::new();
    book.create_debt_request(1, 5, 10, 2, 100).unwrap();
    assert_eq!(
        book.create_debt_request(1, 5, 10, 2, 100),
        Err(LedgerError::AlreadyExists)
    );
}

#[test]
fn error_unauthorized() {
    let mut reg = Registry::new();
    reg.mint(1, 11).unwrap();
    assert_eq!(reg.approve(5, 6, 11), Err(LedgerError::Unauthorized));
    assert_eq!(reg.transfer_from(5, 1, 6, 11), Err(LedgerError::Unauthorized));
    assert_eq!(reg.escrow_lock(5, 11, 900), Err(LedgerError::Unauthorized));
}

#[test]
fn error_invalid_argument() {
    let mut debts = DebtLedger::new();
    // a zero interest period, a zero term, and a term no longer than the
    // period are all rejected
    assert_eq!(
        debts.borrow(1, 5, 1, 10, 100, 0, 0, 3),
        Err(LedgerError::InvalidArgument)
    );
    assert_eq!(
        debts.borrow(1, 5, 1, 10, 100, 0, 1, 0),
        Err(LedgerError::InvalidArgument)
    );
    assert_eq!(
        debts.borrow(1, 5, 1, 10, 100, 0, 3, 3),
        Err(LedgerError::InvalidArgument)
    );
    let mut reg = Registry::new();
    reg.mint(1, 11).unwrap();
    // approving the owner itself is a rejected no-op
    assert_eq!(reg.approve(1, 1, 11), Err(LedgerError::InvalidArgument));
    assert_eq!(reg.set_approval_for_all(3, 3, true), Err(LedgerError::InvalidArgument));
}

#[test]
fn error_invalid_state() {
    let (mut reg, mut debts, _bank, _token, debt_id) = funded_debt(1, 2, 100, 0, 1, 5);
    // funding twice is refused: the creditor is already set
    assert_eq!(debts.fund(2, debt_id, 0, &reg), Err(LedgerError::InvalidState));
    // repaying or seizing a never-funded debt is refused
    debts.borrow(1, 77, 1, 10, 50, 0, 1, 5).unwrap();
    assert_eq!(debts.repay(1, 77, 0, 10, &mut reg), Err(LedgerError::InvalidState));
    assert_eq!(debts.seize(1, 77, 9, &mut reg), Err(LedgerError::InvalidState));
}

#[test]
fn error_expired() {
    let mut reg = Registry::new();
    let mut debts = DebtLedger::new();
    reg.mint(1, 11).unwrap();
    debts.borrow(1, 50, 1, 10, 100, 0, 1, 5).unwrap();
    reg.escrow_lock(1, 11, 50).unwrap();
    // the funding deadline was 10; at 11 the request is expired
    assert_eq!(debts.fund(2, 50, 11, &reg), Err(LedgerError::Expired));
    assert_eq!(debts.fund_payment(2, 50, 11, &reg), Err(LedgerError::Expired));
}

#[test]
fn error_past_due() {
    let (mut reg, mut debts, _bank, _token, debt_id) = funded_debt(1, 2, 100, 0, 1, 5);
    // the term ran from 0 to 5; at 6 repayment is refused
    assert_eq!(debts.repay(1, debt_id, 6, 100, &mut reg), Err(LedgerError::PastDue));
    assert_eq!(
        debts.repay_payment(1, debt_id, 6, 100, &reg),
        Err(LedgerError::PastDue)
    );
}

#[test]
fn error_already_settled() {
    let (mut reg, mut debts, mut bank, _token, debt_id) = funded_debt(1, 2, 100, 0, 1, 5);
    let repayment = debts.repay_payment(1, debt_id, 0, 100, &reg).unwrap();
    pay(&mut bank, repayment);
    debts.repay(1, debt_id, 0, 100, &mut reg).unwrap();
    // nothing is outstanding, so there is nothing to seize
    assert_eq!(debts.seize(2, debt_id, 6, &mut reg), Err(LedgerError::AlreadySettled));
}

#[test]
fn error_arithmetic() {
    let mut debts = DebtLedger::new();
    // one elapsed period at rate 20000 pushes u64::MAX * 30000 out of range
    debts.borrow(1, 5, 1, 10, u64::MAX, 20000, 1, 2).unwrap();
    assert_eq!(debts.update_balance(5, 1), Err(LedgerError::ArithmeticError));
}

#[test]
fn order_status_defaults_to_open() {
    assert_eq!(OrderStatus::default(), OrderStatus::Open);
    assert!(OrderStatus::default() != OrderStatus::Expired);
}

#[test]
fn request_book_enumerates_in_order() {
    let mut book = RequestBook::new();
    book.create_debt_request(1, 100, 5, 2, 50).unwrap();
    book.create_debt_request(3, 200, 7, 4, 60).unwrap();
    assert_eq!(book.get_total_debt_requests(), 2);
    assert_eq!(book.get_debt_request_id(0), Some(100));
    assert_eq!(book.get_debt_request_id(1), Some(200));
    let r = book.get_debt_order(200).unwrap();
    assert_eq!(r.requestor, 3);
    assert_eq!(r.amount, 7);
    assert_eq!(r.beneficiary, 4);
    assert_eq!(r.expiry, 60);
    assert!(!r.collateralized);
}
