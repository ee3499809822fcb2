//! The lifecycle walked end to end: token creation, collateralization,
//! borrowing, funding, repayment and seizure, with a host-side balance book
//! standing in for the value-transfer primitive and a deterministic id
//! generator standing in for the host's.

use collateral::debt::DebtLedger;
use collateral::registry::Registry;
use collateral::requests::RequestBook;
use collateral::{LedgerError, Payment};
use std::collections::HashMap;

/// The host's id generator: a collision-resistant identifier from an
/// entropy source, the calling account and the current time. The same
/// inputs give the same identifier.
fn gen_id(entropy: u64, account: u64, time: u64) -> u64 {
    entropy
        .wrapping_mul(6364136223846793005)
        .wrapping_add(account.wrapping_mul(1442695040888963407))
        .wrapping_add(time)
}

/// The host's value-transfer primitive over an in-memory balance book.
fn pay(bank: &mut HashMap<u64, u64>, p: Payment) {
    let from = *bank.get(&p.from).unwrap_or(&0);
    let to = *bank.get(&p.to).unwrap_or(&0);
    assert!(from >= p.amount);
    bank.insert(p.from, from - p.amount);
    bank.insert(p.to, to + p.amount);
}

fn genesis() -> HashMap<u64, u64> {
    let mut bank = HashMap::new();
    bank.insert(0, 100);
    bank.insert(1, 100);
    bank.insert(2, 100);
    bank
}

#[test]
fn collateral_should_create_debt_request() {
    let mut book = RequestBook::new();
    let id = gen_id(0, 0, 0);
    assert!(book.create_debt_request(0, id, 5, 1, 12345).is_ok());
}

#[test]
fn test_should_create_debt_request() {
    let mut debts = DebtLedger::new();
    assert!(debts.borrow(0, gen_id(0, 0, 0), 1, 1, 100, 0, 1, 2).is_ok());
    // the time has not moved, so the generated id stays the same
    assert_eq!(
        debts.borrow(0, gen_id(0, 0, 0), 1, 1, 100, 0, 1, 2),
        Err(LedgerError::AlreadyExists)
    );
}

#[test]
fn should_fulfill_request() {
    let mut reg = Registry::new();
    let mut debts = DebtLedger::new();
    let mut bank = genesis();
    reg.mint(0, gen_id(42, 0, 0)).unwrap();
    let token_id = reg.token_by_index(0).unwrap();

    assert!(debts.borrow(0, gen_id(7, 0, 0), 0, 1, 100, 0, 1, 2).is_ok());
    let debt_id = debts.get_debt_id(0).unwrap();

    // the debt is not collateralized yet
    assert!(debts.fund_payment(1, debt_id, 0, &reg).is_err());

    // once the asset is locked under the debt's key, funding goes through
    assert!(reg.escrow_lock(0, token_id, debt_id).is_ok());
    let payment = debts.fund_payment(1, debt_id, 0, &reg).unwrap();
    pay(&mut bank, payment);
    assert!(debts.fund(1, debt_id, 0, &reg).is_ok());
    assert_eq!(0, *bank.get(&1).unwrap());
    assert_eq!(200, *bank.get(&0).unwrap());

    // a third party cannot fund it again: a creditor exists now
    assert!(debts.fund_payment(1, debt_id, 0, &reg).is_err());
}

#[test]
fn can_repay() {
    let mut reg = Registry::new();
    let mut debts = DebtLedger::new();
    let mut bank = genesis();
    reg.mint(1, gen_id(42, 1, 0)).unwrap();
    let token_id = reg.token_by_index(0).unwrap();
    debts.borrow(1, gen_id(7, 1, 0), 1, 1, 100, 0, 1, 2).unwrap();
    let debt_id = debts.get_debt_id(0).unwrap();
    reg.escrow_lock(1, token_id, debt_id).unwrap();
    let funding = debts.fund_payment(2, debt_id, 0, &reg).unwrap();
    pay(&mut bank, funding);
    debts.fund(2, debt_id, 0, &reg).unwrap();

    // repayment clears the debt and returns the collateral
    let repayment = debts.repay_payment(1, debt_id, 0, 100, &reg).unwrap();
    pay(&mut bank, repayment);
    assert!(debts.repay(1, debt_id, 0, 100, &mut reg).is_ok());
    assert_eq!(100, *bank.get(&2).unwrap());
}

#[test]
fn can_seize() {
    let mut reg = Registry::new();
    let mut debts = DebtLedger::new();
    let mut bank = genesis();
    reg.mint(1, gen_id(42, 1, 0)).unwrap();
    let token_id = reg.token_by_index(0).unwrap();
    debts.borrow(1, gen_id(7, 1, 0), 1, 1, 100, 0, 1, 3).unwrap(); // term length is 3
    let debt_id = debts.get_debt_id(0).unwrap();
    reg.escrow_lock(1, token_id, debt_id).unwrap();
    let funding = debts.fund_payment(2, debt_id, 0, &reg).unwrap();
    pay(&mut bank, funding);
    debts.fund(2, debt_id, 0, &reg).unwrap(); // the term starts at 0

    assert!(debts.seize(2, debt_id, 0, &mut reg).is_err()); // not due yet
    assert!(debts.seize(2, debt_id, 6, &mut reg).is_ok()); // past the term end
}

#[test]
fn can_compound_interest() {
    let mut reg = Registry::new();
    let mut debts = DebtLedger::new();
    let mut bank = genesis();
    reg.mint(1, gen_id(42, 1, 0)).unwrap();
    let token_id = reg.token_by_index(0).unwrap();

    // rate 10 (0.10% per period), a period every 10 time units, 500 until
    // the collateral may be seized
    debts.borrow(1, gen_id(7, 1, 0), 1, 1, 100, 10, 10, 500).unwrap();
    let debt_id = debts.get_debt_id(0).unwrap();
    reg.escrow_lock(1, token_id, debt_id).unwrap();
    let funding = debts.fund_payment(2, debt_id, 0, &reg).unwrap();
    pay(&mut bank, funding);
    debts.fund(2, debt_id, 0, &reg).unwrap(); // the term starts at 0

    // after 6 time units no whole period has elapsed
    assert!(debts.update_balance(debt_id, 6).is_ok());
    assert_eq!(debts.get_debt(debt_id).unwrap().principal, 100);
    assert_eq!(debts.get_debt(debt_id).unwrap().interest, 0);

    // after 20 time units two periods have elapsed; 100*10*2/10000 still
    // truncates to zero under the integer rule
    assert!(debts.update_balance(debt_id, 20).is_ok());
    assert_eq!(debts.get_debt(debt_id).unwrap().principal, 100);
    assert_eq!(debts.get_debt(debt_id).unwrap().interest, 0);
}

#[test]
fn can_create_token() {
    let mut reg = Registry::new();
    assert!(reg.mint(0, gen_id(42, 0, 0)).is_ok());
}

#[test]
fn can_collateralize_token() {
    let mut reg = Registry::new();
    assert!(reg.mint(0, gen_id(42, 0, 0)).is_ok());
    let token_id = reg.token_by_index(0).unwrap();
    assert!(reg.escrow_lock(0, token_id, 0).is_ok());
    // the owner no longer holds the token
    assert_eq!(reg.balance_of(0), 0);
    // the token no longer has an owner
    assert!(reg.owner_of(reg.token_by_index(0).unwrap()).is_none());
    // the total supply does not change
    assert_eq!(reg.total_supply(), 1);
}
