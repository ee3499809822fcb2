//! A collateralized-lending core.
//!
//! The crate couples two engines. A token registry keeps non-fungible
//! assets, their owners, approvals and two enumeration arrays, and can move
//! an asset into and out of escrow so that exactly one party has a claim on
//! it at any time. A debt ledger advances a loan through borrow, fund,
//! repay and seize, accruing simple interest with integer arithmetic, and
//! releases the escrowed collateral on settlement or seizure.
//!
//! The host around the library supplies what the core deliberately leaves
//! out: the authenticated caller, the current time, freshly generated
//! identifiers, and the primitive that moves funds between accounts. Each
//! operation takes those as plain arguments; operations that need a funds
//! transfer are split into a query that returns the required [`Payment`]
//! and a commit that applies the state change once the host has moved the
//! funds.

use vstd::prelude::*;

pub mod accrual;
pub mod debt;
pub mod enumeration;
pub mod registry;
pub mod requests;

verus! {

/// Why an operation was refused. A failed operation leaves every piece of
/// state unchanged.
#[derive(Clone, Copy, PartialEq, Eq, Debug)]
pub enum LedgerError {
    /// Unknown asset, debt or escrow key.
    NotFound,
    /// An identifier collision, or a duplicate escrow key.
    AlreadyExists,
    /// The caller lacks ownership or approval.
    Unauthorized,
    /// A zero or inverted period or term, or a rejected no-op.
    InvalidArgument,
    /// The debt is in the wrong lifecycle phase.
    InvalidState,
    /// The funding deadline has passed.
    Expired,
    /// The repayment window has closed.
    PastDue,
    /// The term has not ended yet.
    NotYetDue,
    /// No asset is escrowed under the debt's key.
    InsufficientCollateral,
    /// The outstanding balance is already zero.
    AlreadySettled,
    /// A checked counter or balance would overflow or underflow.
    ArithmeticError,
}

/// A funds movement the host must perform through its value-transfer
/// primitive: `amount` goes from `from` to `to`.
#[derive(Clone, Copy, PartialEq, Eq, Debug)]
pub struct Payment {
    pub from: u64,
    pub to: u64,
    pub amount: u64,
}

} // verus!
