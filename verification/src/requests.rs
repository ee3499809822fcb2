//! A book of plain debt requests: an asset owner asks for a tranche of
//! balance against collateral to be locked later. The book only records
//! requests; the debt ledger runs the lifecycle.

use crate::LedgerError;
use std::collections::HashMap;
use vstd::prelude::*;

verus! {

/// A request for a tranche of balance, created by the account that will go
/// into debt.
#[derive(Clone, Copy, Debug)]
pub struct DebtRequest {
    /// The request's identifier, from the host's id generator.
    pub id: u64,
    /// The account that will go into debt.
    pub requestor: u64,
    /// The recipient of the balance.
    pub beneficiary: u64,
    /// The amount asked for.
    pub amount: u64,
    /// How long the request stands.
    pub expiry: u64,
    /// False until collateral is locked for the request.
    pub collateralized: bool,
}

/// Where a collateralized debt order stands in its life.
#[derive(Clone, Copy, PartialEq, Eq, Structural, Debug)]
pub enum OrderStatus {
    /// Never filled; the request ran out.
    Expired,
    /// Looking for issuance.
    Open,
    /// The loan was issued.
    Active,
    /// Closed: repaid in full.
    Repaid,
    /// Unpaid; the collateral was seized.
    Defaulted,
}

impl Default for OrderStatus {
    /// A fresh order is open.
    fn default() -> (r: OrderStatus)
        ensures
            r == OrderStatus::Open,
    {
        OrderStatus::Open
    }
}

/// An order created upon successful collateralization of a request.
#[derive(Clone, Copy, PartialEq, Eq, Structural, Debug)]
pub struct DebtOrder {
    /// The order's identifier.
    pub id: u64,
    /// The request this order fills.
    pub request_id: u64,
    /// Where the order stands.
    pub status: OrderStatus,
    /// The account that issued the loan.
    pub creditor: u64,
    /// How long the order stands.
    pub expiry: u64,
}

/// The request book: the requests, their enumeration index, and the stored
/// count.
pub struct RequestBook {
    requests: HashMap<u64, DebtRequest>,
    index_to_id: Vec<u64>,
    count: u64,
}

impl RequestBook {
    /// The map from request id to its record.
    pub closed spec fn requests_map(self) -> Map<u64, DebtRequest> {
        self.requests@
    }

    /// The ids in creation order.
    pub closed spec fn index_ids(self) -> Seq<u64> {
        self.index_to_id@
    }

    /// The stored request counter.
    pub closed spec fn spec_count(self) -> u64 {
        self.count
    }

    /// The book's invariant: the counter equals the index length, and the
    /// index lists each existing request exactly once.
    pub closed spec fn wf(self) -> bool {
        &&& self.count == self.index_to_id@.len()
        &&& self.index_to_id@.no_duplicates()
        &&& forall|i: int|
            0 <= i < self.index_to_id@.len() ==> self.requests@.contains_key(
                #[trigger] self.index_to_id@[i],
            )
        &&& forall|id: u64| #[trigger]
            self.requests@.contains_key(id) ==> self.index_to_id@.contains(id)
    }

    /// An empty book.
    pub fn new() -> (r: RequestBook)
        ensures
            r.wf(),
            r.requests_map() == Map::<u64, DebtRequest>::empty(),
            r.index_ids() == Seq::<u64>::empty(),
            r.spec_count() == 0,
    {
        RequestBook { requests: HashMap::new(), index_to_id: Vec::new(), count: 0 }
    }

    /// The request of `request_id`, if one exists.
    pub fn get_debt_order(&self, request_id: u64) -> (r: Option<DebtRequest>)
        ensures
            r == (if self.requests_map().contains_key(request_id) {
                Some(self.requests_map()[request_id])
            } else {
                None::<DebtRequest>
            }),
    {
        match self.requests.get(&request_id) {
            Some(d) => Some(*d),
            None => None,
        }
    }

    /// The id at creation position `index`, if any.
    pub fn get_debt_request_id(&self, index: u64) -> (r: Option<u64>)
        ensures
            match r {
                Some(id) => index < self.index_ids().len() && id == self.index_ids()[index as int],
                None => index >= self.index_ids().len(),
            },
    {
        if index < self.index_to_id.len() as u64 {
            Some(self.index_to_id[index as usize])
        } else {
            None
        }
    }

    /// The stored request counter.
    pub fn get_total_debt_requests(&self) -> (r: u64)
        ensures
            r == self.spec_count(),
    {
        self.count
    }

    /// Records a request: the caller becomes the requestor and the record
    /// starts uncollateralized. The identifier comes from the host's id
    /// generator; a collision fails `AlreadyExists`, and a counter at its
    /// limit fails `ArithmeticError`. A failed call changes nothing.
    pub fn create_debt_request(
        &mut self,
        caller: u64,
        request_id: u64,
        amount: u64,
        beneficiary: u64,
        expiry: u64,
    ) -> (r: Result<(), LedgerError>)
        requires
            old(self).wf(),
        ensures
            final(self).wf(),
            ({
                let pre = *old(self);
                let post = *final(self);
                if pre.requests_map().contains_key(request_id) {
                    r == Err::<(), LedgerError>(LedgerError::AlreadyExists) && post == pre
                } else if pre.spec_count() == u64::MAX {
                    r == Err::<(), LedgerError>(LedgerError::ArithmeticError) && post == pre
                } else {
                    &&& r == Ok::<(), LedgerError>(())
                    &&& post.requests_map() == pre.requests_map().insert(
                        request_id,
                        DebtRequest {
                            id: request_id,
                            requestor: caller,
                            beneficiary,
                            amount,
                            expiry,
                            collateralized: false,
                        },
                    )
                    &&& post.index_ids() == pre.index_ids().push(request_id)
                    &&& post.spec_count() == pre.spec_count() + 1
                }
            }),
    {
        if self.requests.contains_key(&request_id) {
            return Err(LedgerError::AlreadyExists);
        }
        if self.count == u64::MAX {
            return Err(LedgerError::ArithmeticError);
        }
        let record = DebtRequest {
            id: request_id,
            requestor: caller,
            beneficiary,
            amount,
            expiry,
            collateralized: false,
        };
        self.count = self.count + 1;
        self.index_to_id.push(request_id);
        self.requests.insert(request_id, record);
        proof {
            let pre = *old(self);
            assert forall|a: int, b: int|
                0 <= a < self.index_to_id@.len() && 0 <= b < self.index_to_id@.len() && a != b
                implies self.index_to_id@[a] != self.index_to_id@[b] by {
                if a < pre.index_to_id@.len() && b < pre.index_to_id@.len() {
                    assert(pre.index_to_id@[a] != pre.index_to_id@[b]);
                } else if a < pre.index_to_id@.len() {
                    assert(pre.requests@.contains_key(pre.index_to_id@[a]));
                } else if b < pre.index_to_id@.len() {
                    assert(pre.requests@.contains_key(pre.index_to_id@[b]));
                }
            }
            assert forall|id: u64| #[trigger]
                self.requests@.contains_key(id) implies self.index_to_id@.contains(id) by {
                if id == request_id {
                    assert(self.index_to_id@[pre.index_to_id@.len() as int] == request_id);
                } else {
                    assert(pre.requests@.contains_key(id));
                    let i = choose|i: int|
                        0 <= i < pre.index_to_id@.len() && pre.index_to_id@[i] == id;
                    assert(self.index_to_id@[i] == id);
                }
            }
        }
        Ok(())
    }
}

} // verus!
