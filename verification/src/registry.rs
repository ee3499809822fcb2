//! The asset registry and its escrow ledger.
//!
//! The registry owns every asset record: the current owner (or none while
//! the asset is escrowed), the single approved spender, operator approvals,
//! a per-owner enumeration array and a global one, the `total_supply`
//! counter, and the escrow map from lock key to the one asset held under
//! that key. The escrow map is the coordination point with the debt
//! ledger: `escrow_lock` is the public way in, and `escrow_release` — the
//! way out — is callable only from inside the crate, by the debt ledger.

use crate::enumeration::{position_in, swap_removed, Enumeration};
use crate::LedgerError;
use std::collections::HashMap;
use vstd::prelude::*;

verus! {

/// One owner's account, its stored token count, and its enumeration array.
pub struct OwnerSlot {
    owner: u64,
    count: u64,
    tokens: Enumeration,
}

/// Whether some slot belongs to `o`.
spec fn slots_has(s: Seq<OwnerSlot>, o: u64) -> bool {
    exists|i: int| 0 <= i < s.len() && s[i].owner == o
}

/// The index of `o`'s slot; meaningful only under [`slots_distinct`].
spec fn slots_index(s: Seq<OwnerSlot>, o: u64) -> int {
    choose|i: int| 0 <= i < s.len() && s[i].owner == o
}

/// The enumeration array of `o`'s slot, or empty if `o` has no slot.
spec fn slots_owned(s: Seq<OwnerSlot>, o: u64) -> Seq<u64> {
    if slots_has(s, o) {
        s[slots_index(s, o)].tokens@
    } else {
        Seq::empty()
    }
}

/// The stored count of `o`'s slot, or zero if `o` has no slot.
spec fn slots_count(s: Seq<OwnerSlot>, o: u64) -> u64 {
    if slots_has(s, o) {
        s[slots_index(s, o)].count
    } else {
        0
    }
}

/// No account owns two slots.
spec fn slots_distinct(s: Seq<OwnerSlot>) -> bool {
    forall|i: int, j: int|
        #![trigger s[i].owner, s[j].owner]
        0 <= i < s.len() && 0 <= j < s.len() && i != j ==> s[i].owner != s[j].owner
}

/// The sum of the stored counts over all slots.
spec fn sum_counts(s: Seq<OwnerSlot>) -> int
    decreases s.len(),
{
    if s.len() == 0 {
        0
    } else {
        sum_counts(s.drop_last()) + s.last().count
    }
}

/// Replacing one slot moves the sum by the difference of the counts.
proof fn lemma_sum_update(s: Seq<OwnerSlot>, i: int, slot: OwnerSlot)
    requires
        0 <= i < s.len(),
    ensures
        sum_counts(s.update(i, slot)) == sum_counts(s) - s[i].count + slot.count,
    decreases s.len(),
{
    let t = s.update(i, slot);
    if i == s.len() - 1 {
        assert(t.drop_last() =~= s.drop_last());
    } else {
        assert(t.drop_last() =~= s.drop_last().update(i, slot));
        lemma_sum_update(s.drop_last(), i, slot);
        assert(t.last() == s.last());
    }
}

/// The facts that hold of the slot at a given index, under distinctness.
proof fn lemma_slot_at(s: Seq<OwnerSlot>, i: int)
    requires
        slots_distinct(s),
        0 <= i < s.len(),
    ensures
        slots_has(s, s[i].owner),
        slots_index(s, s[i].owner) == i,
        slots_owned(s, s[i].owner) == s[i].tokens@,
        slots_count(s, s[i].owner) == s[i].count,
{
    assert(slots_has(s, s[i].owner));
    let j = slots_index(s, s[i].owner);
    assert(0 <= j < s.len() && s[j].owner == s[i].owner);
    assert(j == i);
}

/// Updating slot `i` without changing its owner leaves every other
/// account's slot untouched.
proof fn lemma_slots_frame(pre: Seq<OwnerSlot>, post: Seq<OwnerSlot>, i: int)
    requires
        slots_distinct(pre),
        0 <= i < pre.len(),
        post == pre.update(i, post[i]),
        post[i].owner == pre[i].owner,
    ensures
        slots_distinct(post),
        forall|o: u64|
            o != pre[i].owner ==> #[trigger] slots_has(post, o) == slots_has(pre, o)
                && slots_owned(post, o) == slots_owned(pre, o) && slots_count(post, o)
                == slots_count(pre, o),
        slots_has(post, pre[i].owner),
        slots_owned(post, pre[i].owner) == post[i].tokens@,
        slots_count(post, pre[i].owner) == post[i].count,
        slots_owned(pre, pre[i].owner) == pre[i].tokens@,
        slots_count(pre, pre[i].owner) == pre[i].count,
{
    assert(post.len() == pre.len());
    assert(forall|j: int| 0 <= j < pre.len() && j != i ==> post[j] == pre[j]);
    assert forall|a: int, b: int|
        0 <= a < post.len() && 0 <= b < post.len() && a != b implies (#[trigger] post[a].owner)
        != (#[trigger] post[b].owner) by {
        assert(pre[a].owner != pre[b].owner);
    }
    lemma_slot_at(pre, i);
    lemma_slot_at(post, i);
    assert forall|o: u64| o != pre[i].owner implies #[trigger] slots_has(post, o) == slots_has(
        pre,
        o,
    ) && slots_owned(post, o) == slots_owned(pre, o) && slots_count(post, o) == slots_count(
        pre,
        o,
    ) by {
        if slots_has(pre, o) {
            let j = slots_index(pre, o);
            assert(0 <= j < pre.len() && pre[j].owner == o);
            assert(j != i);
            assert(post[j].owner == o);
            lemma_slot_at(post, j);
            lemma_slot_at(pre, j);
        } else if slots_has(post, o) {
            let j = slots_index(post, o);
            assert(0 <= j < post.len() && post[j].owner == o);
            assert(j != i);
            assert(pre[j].owner == o);
            assert(slots_has(pre, o));
        }
    }
}

/// Appending a slot for a fresh account leaves every other account's slot
/// untouched.
proof fn lemma_slots_push(pre: Seq<OwnerSlot>, slot: OwnerSlot)
    requires
        slots_distinct(pre),
        !slots_has(pre, slot.owner),
    ensures
        slots_distinct(pre.push(slot)),
        forall|o: u64|
            o != slot.owner ==> #[trigger] slots_has(pre.push(slot), o) == slots_has(pre, o)
                && slots_owned(pre.push(slot), o) == slots_owned(pre, o) && slots_count(
                pre.push(slot),
                o,
            ) == slots_count(pre, o),
        slots_has(pre.push(slot), slot.owner),
        slots_owned(pre.push(slot), slot.owner) == slot.tokens@,
        slots_count(pre.push(slot), slot.owner) == slot.count,
        sum_counts(pre.push(slot)) == sum_counts(pre) + slot.count,
        slots_owned(pre, slot.owner) == Seq::<u64>::empty(),
        slots_count(pre, slot.owner) == 0,
{
    let post = pre.push(slot);
    assert(forall|j: int| 0 <= j < pre.len() ==> post[j] == pre[j]);
    assert forall|a: int, b: int|
        0 <= a < post.len() && 0 <= b < post.len() && a != b implies (#[trigger] post[a].owner)
        != (#[trigger] post[b].owner) by {
        if a < pre.len() && b < pre.len() {
            assert(pre[a].owner != pre[b].owner);
        } else if a < pre.len() {
            assert(post[b] == slot);
            assert(pre[a].owner != slot.owner);
        } else {
            assert(post[a] == slot);
            assert(pre[b].owner != slot.owner);
        }
    }
    lemma_slot_at(post, pre.len() as int);
    assert forall|o: u64| o != slot.owner implies #[trigger] slots_has(post, o) == slots_has(
        pre,
        o,
    ) && slots_owned(post, o) == slots_owned(pre, o) && slots_count(post, o) == slots_count(
        pre,
        o,
    ) by {
        if slots_has(pre, o) {
            let j = slots_index(pre, o);
            assert(post[j].owner == o);
            lemma_slot_at(post, j);
            lemma_slot_at(pre, j);
        } else if slots_has(post, o) {
            let j = slots_index(post, o);
            assert(0 <= j < post.len() && post[j].owner == o);
            assert(j < pre.len());
            assert(slots_has(pre, o));
        }
    }
    assert(post.drop_last() =~= pre);
}

/// What a sequence holds after a push: the old elements and the new one.
proof fn lemma_push_contains<T>(s: Seq<T>, x: T)
    ensures
        forall|y: T| s.push(x).contains(y) <==> (s.contains(y) || y == x),
{
    assert forall|y: T| s.push(x).contains(y) <==> (s.contains(y) || y == x) by {
        if s.push(x).contains(y) {
            let j = choose|j: int| 0 <= j < s.push(x).len() && s.push(x)[j] == y;
            if j < s.len() {
                assert(s[j] == y);
            }
        }
        if s.contains(y) {
            let j = choose|j: int| 0 <= j < s.len() && s[j] == y;
            assert(s.push(x)[j] == y);
        }
        if y == x {
            assert(s.push(x)[s.len() as int] == y);
        }
    }
}

/// The swap-and-truncate removal, for sequences of any element type.
spec fn swap_removed_gen<T>(s: Seq<T>, i: int) -> Seq<T> {
    s.update(i, s.last()).drop_last()
}

/// What a sequence holds after the swap-and-truncate removal of entry `i`,
/// when it holds no duplicates.
proof fn lemma_swap_remove_contains<T>(s: Seq<T>, i: int)
    requires
        0 <= i < s.len(),
        s.no_duplicates(),
    ensures
        swap_removed_gen(s, i).no_duplicates(),
        forall|x: T| swap_removed_gen(s, i).contains(x) <==> (s.contains(x) && x != s[i]),
{
    let t = swap_removed_gen(s, i);
    assert forall|a: int, b: int|
        0 <= a < t.len() && 0 <= b < t.len() && a != b implies t[a] != t[b] by {
        let a2: int = if a == i { s.len() - 1 } else { a };
        let b2: int = if b == i { s.len() - 1 } else { b };
        assert(t[a] == s[a2] && t[b] == s[b2]);
        assert(a2 != b2);
    }
    assert forall|x: T| t.contains(x) <==> (s.contains(x) && x != s[i]) by {
        if t.contains(x) {
            let j = choose|j: int| 0 <= j < t.len() && t[j] == x;
            if j == i {
                assert(s[s.len() - 1] == x);
                assert(i < s.len() - 1);
            } else {
                assert(s[j] == x);
            }
        }
        if s.contains(x) && x != s[i] {
            let j = choose|j: int| 0 <= j < s.len() && s[j] == x;
            if j < s.len() - 1 {
                if j == i {
                    assert(false);
                } else {
                    assert(t[j] == x);
                }
            } else {
                assert(i < s.len() - 1);
                assert(t[i] == x);
            }
        }
    }
}

/// Carries the "every minted asset is owned or escrowed" clause across an
/// operation that leaves the three structures it speaks of untouched.
proof fn lemma_owned_or_escrowed_preserved(pre: Registry, post: Registry)
    requires
        pre.wf(),
        post.all_tokens@ == pre.all_tokens@,
        post.token_owner@ == pre.token_owner@,
        post.escrow@ == pre.escrow@,
    ensures
        forall|i: int|
            0 <= i < post.all_tokens@.len() ==> post.token_owner@.contains_key(
                #[trigger] post.all_tokens@[i],
            ) || exists|k: u64| #[trigger]
                post.escrow@.contains_key(k) && post.escrow@[k] == post.all_tokens@[i],
{
    assert forall|i: int|
        0 <= i < post.all_tokens@.len() implies post.token_owner@.contains_key(
        #[trigger] post.all_tokens@[i],
    ) || exists|k: u64| #[trigger]
        post.escrow@.contains_key(k) && post.escrow@[k] == post.all_tokens@[i] by {
        if !post.token_owner@.contains_key(post.all_tokens@[i]) {
            assert(pre.all_tokens@[i] == post.all_tokens@[i]);
            assert(!pre.token_owner@.contains_key(pre.all_tokens@[i]));
            let k = choose|k: u64| #[trigger]
                pre.escrow@.contains_key(k) && pre.escrow@[k] == pre.all_tokens@[i];
            assert(post.escrow@.contains_key(k) && post.escrow@[k] == post.all_tokens@[i]);
        }
    }
}

/// The asset registry with its escrow ledger.
pub struct Registry {
    owners: Vec<OwnerSlot>,
    token_owner: HashMap<u64, u64>,
    approvals: HashMap<u64, u64>,
    operators: Vec<(u64, u64)>,
    all_tokens: Enumeration,
    total_supply: u64,
    escrow: HashMap<u64, u64>,
}

impl Registry {
    /// The map from asset id to its current owner; an escrowed or unknown
    /// asset has no entry.
    pub closed spec fn owner_map(self) -> Map<u64, u64> {
        self.token_owner@
    }

    /// The current owner of `token`, or `None` while it is escrowed or
    /// unknown.
    pub open spec fn owner_of_spec(self, token: u64) -> Option<u64> {
        if self.owner_map().contains_key(token) {
            Some(self.owner_map()[token])
        } else {
            None
        }
    }

    /// The map from asset id to its single approved spender.
    pub closed spec fn approval_map(self) -> Map<u64, u64> {
        self.approvals@
    }

    /// The escrow ledger: lock key to the one asset held under it.
    pub closed spec fn escrow_map(self) -> Map<u64, u64> {
        self.escrow@
    }

    /// The global enumeration of every minted asset.
    pub closed spec fn all_ids(self) -> Seq<u64> {
        self.all_tokens@
    }

    /// Whether `token` has been minted (and not burned).
    pub open spec fn minted(self, token: u64) -> bool {
        self.all_ids().contains(token)
    }

    /// The `(owner, operator)` pairs with a standing operator approval.
    pub closed spec fn operator_pairs(self) -> Seq<(u64, u64)> {
        self.operators@
    }

    /// Whether `operator` is approved to act for everything `owner` owns.
    pub open spec fn operator_approved(self, owner: u64, operator: u64) -> bool {
        self.operator_pairs().contains((owner, operator))
    }

    /// `owner`'s enumeration array: the assets it owns, in enumeration
    /// order.
    pub closed spec fn owned_ids(self, owner: u64) -> Seq<u64> {
        slots_owned(self.owners@, owner)
    }

    /// `owner`'s stored token count.
    pub closed spec fn count_of(self, owner: u64) -> u64 {
        slots_count(self.owners@, owner)
    }

    /// The stored `total_supply` counter.
    pub closed spec fn spec_total_supply(self) -> u64 {
        self.total_supply
    }

    /// The accounts that have an enumeration slot, in slot order.
    pub closed spec fn owner_accounts(self) -> Seq<u64> {
        self.owners@.map_values(|s: OwnerSlot| s.owner)
    }

    /// Whether `spender` may move `token`: it is the owner, the approved
    /// spender, or an operator approved for the owner.
    pub open spec fn spec_is_approved_or_owner(self, spender: u64, token: u64) -> bool {
        &&& self.owner_map().contains_key(token)
        &&& {
            ||| self.owner_map()[token] == spender
            ||| (self.approval_map().contains_key(token) && self.approval_map()[token] == spender)
            ||| self.operator_approved(self.owner_map()[token], spender)
        }
    }

    /// The registry's invariant.
    ///
    /// Both enumeration structures are exact, the stored counters equal the
    /// array lengths, ownership and the per-owner arrays list exactly the
    /// same assets, an approval only ever attaches to an owned asset, an
    /// escrow entry holds a minted, ownerless asset and no two keys hold
    /// the same one, every minted asset is either owned or escrowed, and
    /// the owned counts plus the escrow entries add up to `total_supply`.
    pub closed spec fn wf(self) -> bool {
        &&& self.all_tokens.wf()
        &&& self.total_supply == self.all_tokens@.len()
        &&& slots_distinct(self.owners@)
        &&& forall|i: int|
            0 <= i < self.owners@.len() ==> (#[trigger] self.owners@[i]).tokens.wf()
                && self.owners@[i].count == self.owners@[i].tokens@.len()
        &&& forall|i: int, j: int|
            #![trigger self.owners@[i].tokens@[j]]
            0 <= i < self.owners@.len() && 0 <= j < self.owners@[i].tokens@.len() ==> {
                &&& self.token_owner@.contains_key(self.owners@[i].tokens@[j])
                &&& self.token_owner@[self.owners@[i].tokens@[j]] == self.owners@[i].owner
            }
        &&& forall|t: u64| #[trigger]
            self.token_owner@.contains_key(t) ==> slots_has(self.owners@, self.token_owner@[t])
                && slots_owned(self.owners@, self.token_owner@[t]).contains(t)
        &&& forall|t: u64| #[trigger]
            self.token_owner@.contains_key(t) ==> self.all_tokens@.contains(t)
        &&& forall|t: u64| #[trigger]
            self.approvals@.contains_key(t) ==> self.token_owner@.contains_key(t)
        &&& forall|k: u64| #[trigger]
            self.escrow@.contains_key(k) ==> self.all_tokens@.contains(self.escrow@[k])
                && !self.token_owner@.contains_key(self.escrow@[k])
        &&& forall|k1: u64, k2: u64|
            #![trigger self.escrow@[k1], self.escrow@[k2]]
            self.escrow@.contains_key(k1) && self.escrow@.contains_key(k2) && self.escrow@[k1]
                == self.escrow@[k2] ==> k1 == k2
        &&& forall|i: int|
            0 <= i < self.all_tokens@.len() ==> self.token_owner@.contains_key(
                #[trigger] self.all_tokens@[i],
            ) || exists|k: u64| #[trigger]
                self.escrow@.contains_key(k) && self.escrow@[k] == self.all_tokens@[i]
        &&& sum_counts(self.owners@) + self.escrow@.dom().len() == self.total_supply as int
        &&& self.operators@.no_duplicates()
    }

    /// An empty registry: no assets, no approvals, no escrow entries.
    pub fn new() -> (r: Registry)
        ensures
            r.wf(),
            r.owner_map() == Map::<u64, u64>::empty(),
            r.approval_map() == Map::<u64, u64>::empty(),
            r.escrow_map() == Map::<u64, u64>::empty(),
            r.all_ids() == Seq::<u64>::empty(),
            r.operator_pairs() == Seq::<(u64, u64)>::empty(),
            r.spec_total_supply() == 0,
            forall|o: u64| #[trigger] r.owned_ids(o) == Seq::<u64>::empty(),
            forall|o: u64| #[trigger] r.count_of(o) == 0,
    {
        let r = Registry {
            owners: Vec::new(),
            token_owner: HashMap::new(),
            approvals: HashMap::new(),
            operators: Vec::new(),
            all_tokens: Enumeration::new(),
            total_supply: 0,
            escrow: HashMap::new(),
        };
        proof {
            assert(r.escrow@.dom() =~= Set::<u64>::empty());
        }
        r
    }

    /// The index of `owner`'s slot, if it has one.
    fn find_slot(&self, owner: u64) -> (r: Option<usize>)
        ensures
            match r {
                Some(i) => i < self.owners@.len() && self.owners@[i as int].owner == owner,
                None => !slots_has(self.owners@, owner),
            },
    {
        let n: usize = self.owners.len();
        let mut i: usize = 0;
        while i < n
            invariant
                i <= n,
                n == self.owners@.len(),
                forall|j: int| 0 <= j < i ==> self.owners@[j].owner != owner,
            decreases n - i,
        {
            if self.owners[i].owner == owner {
                return Some(i);
            }
            i = i + 1;
        }
        None
    }

    /// Creates `token_id` owned by `to`, appends it to both enumeration
    /// arrays and bumps the counters. Fails `AlreadyExists` if the id
    /// collides with a minted asset, and `ArithmeticError` if a checked
    /// counter would overflow; a failed call changes nothing.
    pub fn mint(&mut self, to: u64, token_id: u64) -> (r: Result<(), LedgerError>)
        requires
            old(self).wf(),
        ensures
            final(self).wf(),
            ({
                let pre = *old(self);
                let post = *final(self);
                if pre.minted(token_id) {
                    r == Err::<(), LedgerError>(LedgerError::AlreadyExists) && post == pre
                } else if pre.spec_total_supply() == u64::MAX || pre.count_of(to) == u64::MAX {
                    r == Err::<(), LedgerError>(LedgerError::ArithmeticError) && post == pre
                } else {
                    &&& r == Ok::<(), LedgerError>(())
                    &&& post.all_ids() == pre.all_ids().push(token_id)
                    &&& post.owner_map() == pre.owner_map().insert(token_id, to)
                    &&& post.owned_ids(to) == pre.owned_ids(to).push(token_id)
                    &&& forall|o: u64| o != to ==> #[trigger] post.owned_ids(o) == pre.owned_ids(o)
                    &&& post.count_of(to) == pre.count_of(to) + 1
                    &&& forall|o: u64| o != to ==> #[trigger] post.count_of(o) == pre.count_of(o)
                    &&& post.spec_total_supply() == pre.spec_total_supply() + 1
                    &&& post.approval_map() == pre.approval_map()
                    &&& post.escrow_map() == pre.escrow_map()
                    &&& post.operator_pairs() == pre.operator_pairs()
                }
            }),
    {
        if self.all_tokens.contains(token_id) {
            return Err(LedgerError::AlreadyExists);
        }
        if self.total_supply == u64::MAX {
            return Err(LedgerError::ArithmeticError);
        }
        let slot_idx = self.find_slot(to);
        proof {
            match slot_idx {
                Some(i) => lemma_slot_at(self.owners@, i as int),
                None => {},
            }
        }
        if let Some(i) = slot_idx {
            if self.owners[i].count == u64::MAX {
                return Err(LedgerError::ArithmeticError);
            }
        }
        let ghost pre = *self;
        self.all_tokens.push(token_id);
        self.total_supply = self.total_supply + 1;
        self.token_owner.insert(token_id, to);
        proof {
            // the fresh id is listed in no slot: everything listed is owned
            assert forall|i: int, j: int|
                #![trigger pre.owners@[i].tokens@[j]]
                0 <= i < pre.owners@.len() && 0 <= j < pre.owners@[i].tokens@.len()
                implies pre.owners@[i].tokens@[j] != token_id by {
                assert(pre.token_owner@.contains_key(pre.owners@[i].tokens@[j]));
            }
        }
        match slot_idx {
            Some(i) => {
                proof {
                    lemma_slot_at(pre.owners@, i as int);
                    assert(!pre.owners@[i as int].tokens@.contains(token_id));
                }
                let slot = &mut self.owners[i];
                slot.tokens.push(token_id);
                slot.count = slot.count + 1;
                proof {
                    lemma_slots_frame(pre.owners@, self.owners@, i as int);
                    lemma_sum_update(pre.owners@, i as int, self.owners@[i as int]);
                }
            },
            None => {
                let mut tokens = Enumeration::new();
                tokens.push(token_id);
                self.owners.push(OwnerSlot { owner: to, count: 1, tokens });
                proof {
                    lemma_slots_push(pre.owners@, self.owners@.last());
                    assert(pre.owned_ids(to) == Seq::<u64>::empty());
                    assert(self.owned_ids(to) =~= pre.owned_ids(to).push(token_id));
                }
            },
        }
        proof {
            lemma_mint_wf(pre, *self, to, token_id);
        }
        Ok(())
    }

    /// The current owner of `token_id`, or `None` while it is escrowed or
    /// unknown.
    pub fn owner_of(&self, token_id: u64) -> (r: Option<u64>)
        ensures
            r == self.owner_of_spec(token_id),
    {
        match self.token_owner.get(&token_id) {
            Some(o) => Some(*o),
            None => None,
        }
    }

    /// Whether `operator` holds a standing approval to act for `owner`.
    pub fn is_approved_for_all(&self, owner: u64, operator: u64) -> (r: bool)
        ensures
            r == self.operator_approved(owner, operator),
    {
        match self.find_operator(owner, operator) {
            Some(_) => true,
            None => false,
        }
    }

    /// The index of the `(owner, operator)` approval pair, if present.
    fn find_operator(&self, owner: u64, operator: u64) -> (r: Option<usize>)
        ensures
            match r {
                Some(i) => i < self.operators@.len() && self.operators@[i as int] == (
                    owner,
                    operator,
                ),
                None => !self.operator_approved(owner, operator),
            },
            r is Some <==> self.operator_approved(owner, operator),
    {
        let n: usize = self.operators.len();
        let mut i: usize = 0;
        while i < n
            invariant
                i <= n,
                n == self.operators@.len(),
                forall|j: int| 0 <= j < i ==> self.operators@[j] != (owner, operator),
            decreases n - i,
        {
            let p: (u64, u64) = self.operators[i];
            if p.0 == owner && p.1 == operator {
                assert(self.operators@[i as int] == (owner, operator));
                return Some(i);
            }
            i = i + 1;
        }
        None
    }

    /// Whether `spender` may move `token_id`: it is the owner, the single
    /// approved spender, or an operator approved for the owner.
    pub fn is_approved_or_owner(&self, spender: u64, token_id: u64) -> (r: bool)
        ensures
            r == self.spec_is_approved_or_owner(spender, token_id),
    {
        let owner: u64 = match self.token_owner.get(&token_id) {
            Some(o) => *o,
            None => {
                return false;
            },
        };
        if owner == spender {
            return true;
        }
        match self.approvals.get(&token_id) {
            Some(a) => {
                if *a == spender {
                    return true;
                }
            },
            None => {},
        }
        self.is_approved_for_all(owner, spender)
    }

    /// Makes `spender` the single approved spender of `token_id`,
    /// overwriting any earlier approval. Fails `NotFound` if the asset has
    /// no owner, `InvalidArgument` if `spender` already is the owner, and
    /// `Unauthorized` unless the caller is the owner or one of its
    /// operators; a failed call changes nothing.
    pub fn approve(&mut self, caller: u64, spender: u64, token_id: u64) -> (r: Result<
        (),
        LedgerError,
    >)
        requires
            old(self).wf(),
        ensures
            final(self).wf(),
            ({
                let pre = *old(self);
                let post = *final(self);
                match pre.owner_of_spec(token_id) {
                    None => r == Err::<(), LedgerError>(LedgerError::NotFound) && post == pre,
                    Some(owner) => {
                        if spender == owner {
                            r == Err::<(), LedgerError>(LedgerError::InvalidArgument) && post
                                == pre
                        } else if caller != owner && !pre.operator_approved(owner, caller) {
                            r == Err::<(), LedgerError>(LedgerError::Unauthorized) && post == pre
                        } else {
                            &&& r == Ok::<(), LedgerError>(())
                            &&& post.approval_map() == pre.approval_map().insert(
                                token_id,
                                spender,
                            )
                            &&& post.owner_map() == pre.owner_map()
                            &&& post.escrow_map() == pre.escrow_map()
                            &&& post.all_ids() == pre.all_ids()
                            &&& post.operator_pairs() == pre.operator_pairs()
                            &&& post.spec_total_supply() == pre.spec_total_supply()
                            &&& forall|o: u64| #[trigger]
                                post.owned_ids(o) == pre.owned_ids(o)
                            &&& forall|o: u64| #[trigger]
                                post.count_of(o) == pre.count_of(o)
                        }
                    },
                }
            }),
    {
        let owner: u64 = match self.token_owner.get(&token_id) {
            Some(o) => *o,
            None => {
                return Err(LedgerError::NotFound);
            },
        };
        if spender == owner {
            return Err(LedgerError::InvalidArgument);
        }
        if caller != owner && !self.is_approved_for_all(owner, caller) {
            return Err(LedgerError::Unauthorized);
        }
        self.approvals.insert(token_id, spender);
        proof {
            lemma_owned_or_escrowed_preserved(*old(self), *self);
        }
        Ok(())
    }

    /// What a transfer of `token_id` from `from` to `to` on behalf of
    /// `caller` does: exactly when each error comes, and on success how the
    /// ownership record, the approval, both enumeration arrays and both
    /// counts move. Everything else is untouched.
    pub open spec fn transfer_outcome(
        pre: Registry,
        post: Registry,
        caller: u64,
        from: u64,
        to: u64,
        token_id: u64,
        r: Result<(), LedgerError>,
    ) -> bool {
        if !pre.spec_is_approved_or_owner(caller, token_id) {
            r == Err::<(), LedgerError>(LedgerError::Unauthorized) && post == pre
        } else if pre.owner_map()[token_id] != from {
            r == Err::<(), LedgerError>(LedgerError::NotFound) && post == pre
        } else if from != to && pre.count_of(to) == u64::MAX {
            r == Err::<(), LedgerError>(LedgerError::ArithmeticError) && post == pre
        } else {
            &&& r == Ok::<(), LedgerError>(())
            &&& post.owner_map() == pre.owner_map().insert(token_id, to)
            &&& post.approval_map() == pre.approval_map().remove(token_id)
            &&& if from == to {
                &&& post.owned_ids(from) == swap_removed(
                    pre.owned_ids(from),
                    position_in(pre.owned_ids(from), token_id),
                ).push(token_id)
                &&& post.count_of(from) == pre.count_of(from)
            } else {
                &&& post.owned_ids(from) == swap_removed(
                    pre.owned_ids(from),
                    position_in(pre.owned_ids(from), token_id),
                )
                &&& post.owned_ids(to) == pre.owned_ids(to).push(token_id)
                &&& post.count_of(from) == pre.count_of(from) - 1
                &&& post.count_of(to) == pre.count_of(to) + 1
            }
            &&& forall|o: u64|
                o != from && o != to ==> #[trigger] post.owned_ids(o) == pre.owned_ids(o)
                    && post.count_of(o) == pre.count_of(o)
            &&& post.escrow_map() == pre.escrow_map()
            &&& post.all_ids() == pre.all_ids()
            &&& post.operator_pairs() == pre.operator_pairs()
            &&& post.spec_total_supply() == pre.spec_total_supply()
        }
    }

    /// Moves `token_id` from `from` to `to`: removes it from `from`'s
    /// enumeration by swap-and-truncate, clears its approval, appends it to
    /// `to`'s enumeration and updates the ownership record. Fails
    /// `Unauthorized` unless the caller is the owner, the approved spender
    /// or an approved operator; `NotFound` if `from` is not the current
    /// owner; `ArithmeticError` if `to`'s checked counter would overflow.
    /// A failed call changes nothing.
    pub fn transfer_from(&mut self, caller: u64, from: u64, to: u64, token_id: u64) -> (r: Result<
        (),
        LedgerError,
    >)
        requires
            old(self).wf(),
        ensures
            final(self).wf(),
            Registry::transfer_outcome(*old(self), *final(self), caller, from, to, token_id, r),
    {
        if !self.is_approved_or_owner(caller, token_id) {
            return Err(LedgerError::Unauthorized);
        }
        let owner: u64 = match self.token_owner.get(&token_id) {
            Some(o) => *o,
            None => {
                proof {
                    assert(false);
                }
                0
            },
        };
        if owner != from {
            return Err(LedgerError::NotFound);
        }
        let from_idx: usize = match self.find_slot(from) {
            Some(i) => i,
            None => {
                proof {
                    assert(false);
                }
                0
            },
        };
        proof {
            lemma_slot_at(self.owners@, from_idx as int);
        }
        let to_idx: Option<usize> = if from != to {
            let t = self.find_slot(to);
            match t {
                Some(j) => {
                    proof {
                        lemma_slot_at(self.owners@, j as int);
                    }
                    if self.owners[j].count == u64::MAX {
                        return Err(LedgerError::ArithmeticError);
                    }
                },
                None => {},
            }
            t
        } else {
            None
        };
        let ghost pre = *self;
        // take the asset out of `from`'s enumeration
        {
            let slot = &mut self.owners[from_idx];
            proof {
                assert(slot.tokens@.contains(token_id));
            }
            slot.tokens.swap_remove_id(token_id);
            slot.count = slot.count - 1;
        }
        let ghost mid = *self;
        proof {
            lemma_slots_frame(pre.owners@, mid.owners@, from_idx as int);
            lemma_sum_update(pre.owners@, from_idx as int, mid.owners@[from_idx as int]);
        }
        // hand it to `to`'s enumeration
        if from == to {
            let slot = &mut self.owners[from_idx];
            proof {
                assert(!slot.tokens@.contains(token_id));
            }
            slot.tokens.push(token_id);
            slot.count = slot.count + 1;
            proof {
                lemma_slots_frame(mid.owners@, self.owners@, from_idx as int);
                lemma_sum_update(mid.owners@, from_idx as int, self.owners@[from_idx as int]);
                lemma_push_contains(mid.owned_ids(from), token_id);
            }
        } else {
            match to_idx {
                Some(j) => {
                    proof {
                        assert(mid.owners@[j as int] == pre.owners@[j as int]);
                        lemma_slot_at(mid.owners@, j as int);
                        assert forall|b: int|
                            0 <= b < mid.owners@[j as int].tokens@.len() implies mid.owners@[
                            j as int].tokens@[b] != token_id by {
                            assert(pre.token_owner@[pre.owners@[j as int].tokens@[b]] == to);
                        }
                        assert(!mid.owners@[j as int].tokens@.contains(token_id));
                    }
                    let slot = &mut self.owners[j];
                    slot.tokens.push(token_id);
                    slot.count = slot.count + 1;
                    proof {
                        lemma_slots_frame(mid.owners@, self.owners@, j as int);
                        lemma_sum_update(mid.owners@, j as int, self.owners@[j as int]);
                        lemma_push_contains(mid.owned_ids(to), token_id);
                    }
                },
                None => {
                    let mut tokens = Enumeration::new();
                    tokens.push(token_id);
                    self.owners.push(OwnerSlot { owner: to, count: 1, tokens });
                    proof {
                        assert(!slots_has(mid.owners@, to));
                        lemma_slots_push(mid.owners@, self.owners@.last());
                        assert(self.owned_ids(to) =~= mid.owned_ids(to).push(token_id));
                        lemma_push_contains(mid.owned_ids(to), token_id);
                    }
                },
            }
        }
        self.approvals.remove(&token_id);
        self.token_owner.insert(token_id, to);
        proof {
            lemma_transfer_wf(pre, *self, from, to, token_id);
        }
        Ok(())
    }

    /// As [`Registry::transfer_from`], after first refusing a recipient
    /// whose externally read free balance is zero. The host reads that
    /// balance from its currency ledger and passes it in.
    pub fn safe_transfer_from(
        &mut self,
        caller: u64,
        from: u64,
        to: u64,
        to_free_balance: u64,
        token_id: u64,
    ) -> (r: Result<(), LedgerError>)
        requires
            old(self).wf(),
        ensures
            final(self).wf(),
            if to_free_balance == 0 {
                r == Err::<(), LedgerError>(LedgerError::InvalidArgument) && *final(self) == *old(
                    self,
                )
            } else {
                Registry::transfer_outcome(
                    *old(self),
                    *final(self),
                    caller,
                    from,
                    to,
                    token_id,
                    r,
                )
            },
    {
        if to_free_balance == 0 {
            return Err(LedgerError::InvalidArgument);
        }
        self.transfer_from(caller, from, to, token_id)
    }

    /// Locks `token_id` under `lock_key`: removes it from its owner's
    /// enumeration by swap-and-truncate, clears its owner and approval, and
    /// records `(lock_key, token_id)` in the escrow map. Fails `NotFound`
    /// if the asset has no owner, `Unauthorized` unless the caller owns or
    /// is approved for it, and `AlreadyExists` if the key already holds an
    /// asset; a failed call changes nothing.
    pub fn escrow_lock(&mut self, caller: u64, token_id: u64, lock_key: u64) -> (r: Result<
        (),
        LedgerError,
    >)
        requires
            old(self).wf(),
        ensures
            final(self).wf(),
            ({
                let pre = *old(self);
                let post = *final(self);
                match pre.owner_of_spec(token_id) {
                    None => r == Err::<(), LedgerError>(LedgerError::NotFound) && post == pre,
                    Some(owner) => {
                        if !pre.spec_is_approved_or_owner(caller, token_id) {
                            r == Err::<(), LedgerError>(LedgerError::Unauthorized) && post == pre
                        } else if pre.escrow_map().contains_key(lock_key) {
                            r == Err::<(), LedgerError>(LedgerError::AlreadyExists) && post == pre
                        } else {
                            &&& r == Ok::<(), LedgerError>(())
                            &&& post.escrow_map() == pre.escrow_map().insert(lock_key, token_id)
                            &&& post.owner_map() == pre.owner_map().remove(token_id)
                            &&& post.approval_map() == pre.approval_map().remove(token_id)
                            &&& post.owned_ids(owner) == swap_removed(
                                pre.owned_ids(owner),
                                position_in(pre.owned_ids(owner), token_id),
                            )
                            &&& post.count_of(owner) == pre.count_of(owner) - 1
                            &&& forall|o: u64|
                                o != owner ==> #[trigger] post.owned_ids(o) == pre.owned_ids(o)
                                    && post.count_of(o) == pre.count_of(o)
                            &&& post.all_ids() == pre.all_ids()
                            &&& post.operator_pairs() == pre.operator_pairs()
                            &&& post.spec_total_supply() == pre.spec_total_supply()
                        }
                    },
                }
            }),
    {
        let owner: u64 = match self.token_owner.get(&token_id) {
            Some(o) => *o,
            None => {
                return Err(LedgerError::NotFound);
            },
        };
        if !self.is_approved_or_owner(caller, token_id) {
            return Err(LedgerError::Unauthorized);
        }
        if self.escrow.contains_key(&lock_key) {
            return Err(LedgerError::AlreadyExists);
        }
        let slot_idx: usize = match self.find_slot(owner) {
            Some(i) => i,
            None => {
                proof {
                    assert(false);
                }
                0
            },
        };
        proof {
            lemma_slot_at(self.owners@, slot_idx as int);
        }
        let ghost pre = *self;
        {
            let slot = &mut self.owners[slot_idx];
            proof {
                assert(slot.tokens@.contains(token_id));
            }
            slot.tokens.swap_remove_id(token_id);
            slot.count = slot.count - 1;
        }
        proof {
            lemma_slots_frame(pre.owners@, self.owners@, slot_idx as int);
            lemma_sum_update(pre.owners@, slot_idx as int, self.owners@[slot_idx as int]);
        }
        self.approvals.remove(&token_id);
        self.token_owner.remove(&token_id);
        self.escrow.insert(lock_key, token_id);
        proof {
            lemma_escrow_lock_wf(pre, *self, owner, token_id, lock_key);
        }
        Ok(())
    }

    /// What a successful escrow release of `lock_key` to `to` does: the
    /// escrowed asset loses its escrow entry, becomes owned by `to` and
    /// joins `to`'s enumeration. Everything else is untouched.
    pub open spec fn release_effect(pre: Registry, post: Registry, to: u64, lock_key: u64) -> bool {
        let token_id = pre.escrow_map()[lock_key];
        &&& post.escrow_map() == pre.escrow_map().remove(lock_key)
        &&& post.owner_map() == pre.owner_map().insert(token_id, to)
        &&& post.owned_ids(to) == pre.owned_ids(to).push(token_id)
        &&& post.count_of(to) == pre.count_of(to) + 1
        &&& forall|o: u64|
            o != to ==> #[trigger] post.owned_ids(o) == pre.owned_ids(o) && post.count_of(o)
                == pre.count_of(o)
        &&& post.approval_map() == pre.approval_map()
        &&& post.all_ids() == pre.all_ids()
        &&& post.operator_pairs() == pre.operator_pairs()
        &&& post.spec_total_supply() == pre.spec_total_supply()
    }

    /// Releases the asset escrowed under `lock_key` to `to`: removes the
    /// escrow entry, makes `to` the owner and appends the asset to `to`'s
    /// enumeration. Fails `NotFound` if the key holds nothing, and
    /// `ArithmeticError` if `to`'s checked counter would overflow; a failed
    /// call changes nothing. Only the debt ledger may call this: it is the
    /// trust boundary between the two engines, not a public operation.
    pub(crate) fn escrow_release(&mut self, to: u64, lock_key: u64) -> (r: Result<
        (),
        LedgerError,
    >)
        requires
            old(self).wf(),
        ensures
            final(self).wf(),
            ({
                let pre = *old(self);
                let post = *final(self);
                if !pre.escrow_map().contains_key(lock_key) {
                    r == Err::<(), LedgerError>(LedgerError::NotFound) && post == pre
                } else if pre.count_of(to) == u64::MAX {
                    r == Err::<(), LedgerError>(LedgerError::ArithmeticError) && post == pre
                } else {
                    r == Ok::<(), LedgerError>(()) && Registry::release_effect(
                        pre,
                        post,
                        to,
                        lock_key,
                    )
                }
            }),
    {
        let token_id: u64 = match self.escrow.get(&lock_key) {
            Some(t) => *t,
            None => {
                return Err(LedgerError::NotFound);
            },
        };
        let slot_idx = self.find_slot(to);
        proof {
            match slot_idx {
                Some(i) => lemma_slot_at(self.owners@, i as int),
                None => {},
            }
        }
        if let Some(i) = slot_idx {
            if self.owners[i].count == u64::MAX {
                return Err(LedgerError::ArithmeticError);
            }
        }
        let ghost pre = *self;
        self.escrow.remove(&lock_key);
        self.token_owner.insert(token_id, to);
        proof {
            // the escrowed asset is listed in no slot: everything listed is owned
            assert forall|i: int, j: int|
                #![trigger pre.owners@[i].tokens@[j]]
                0 <= i < pre.owners@.len() && 0 <= j < pre.owners@[i].tokens@.len()
                implies pre.owners@[i].tokens@[j] != token_id by {
                assert(pre.token_owner@.contains_key(pre.owners@[i].tokens@[j]));
            }
        }
        match slot_idx {
            Some(i) => {
                proof {
                    assert(!pre.owners@[i as int].tokens@.contains(token_id));
                }
                let slot = &mut self.owners[i];
                slot.tokens.push(token_id);
                slot.count = slot.count + 1;
                proof {
                    lemma_slots_frame(pre.owners@, self.owners@, i as int);
                    lemma_sum_update(pre.owners@, i as int, self.owners@[i as int]);
                }
            },
            None => {
                let mut tokens = Enumeration::new();
                tokens.push(token_id);
                self.owners.push(OwnerSlot { owner: to, count: 1, tokens });
                proof {
                    lemma_slots_push(pre.owners@, self.owners@.last());
                    assert(self.owned_ids(to) =~= pre.owned_ids(to).push(token_id));
                }
            },
        }
        proof {
            lemma_escrow_release_wf(pre, *self, to, token_id, lock_key);
        }
        Ok(())
    }

    /// Destroys `token_id`: removes it from its owner's enumeration and
    /// from the global one, both by swap-and-truncate, clears its owner and
    /// approval, and decrements the counters. Fails `NotFound` if the asset
    /// has no owner (an escrowed asset cannot be burned); a failed call
    /// changes nothing.
    pub fn burn(&mut self, token_id: u64) -> (r: Result<(), LedgerError>)
        requires
            old(self).wf(),
        ensures
            final(self).wf(),
            ({
                let pre = *old(self);
                let post = *final(self);
                match pre.owner_of_spec(token_id) {
                    None => r == Err::<(), LedgerError>(LedgerError::NotFound) && post == pre,
                    Some(owner) => {
                        &&& r == Ok::<(), LedgerError>(())
                        &&& post.all_ids() == swap_removed(
                            pre.all_ids(),
                            position_in(pre.all_ids(), token_id),
                        )
                        &&& post.owner_map() == pre.owner_map().remove(token_id)
                        &&& post.approval_map() == pre.approval_map().remove(token_id)
                        &&& post.owned_ids(owner) == swap_removed(
                            pre.owned_ids(owner),
                            position_in(pre.owned_ids(owner), token_id),
                        )
                        &&& post.count_of(owner) == pre.count_of(owner) - 1
                        &&& forall|o: u64|
                            o != owner ==> #[trigger] post.owned_ids(o) == pre.owned_ids(o)
                                && post.count_of(o) == pre.count_of(o)
                        &&& post.spec_total_supply() == pre.spec_total_supply() - 1
                        &&& post.escrow_map() == pre.escrow_map()
                        &&& post.operator_pairs() == pre.operator_pairs()
                    },
                }
            }),
    {
        let owner: u64 = match self.token_owner.get(&token_id) {
            Some(o) => *o,
            None => {
                return Err(LedgerError::NotFound);
            },
        };
        let slot_idx: usize = match self.find_slot(owner) {
            Some(i) => i,
            None => {
                proof {
                    assert(false);
                }
                0
            },
        };
        proof {
            lemma_slot_at(self.owners@, slot_idx as int);
        }
        let ghost pre = *self;
        {
            let slot = &mut self.owners[slot_idx];
            proof {
                assert(slot.tokens@.contains(token_id));
            }
            slot.tokens.swap_remove_id(token_id);
            slot.count = slot.count - 1;
        }
        proof {
            lemma_slots_frame(pre.owners@, self.owners@, slot_idx as int);
            lemma_sum_update(pre.owners@, slot_idx as int, self.owners@[slot_idx as int]);
            assert(self.all_tokens@.contains(token_id));
        }
        self.all_tokens.swap_remove_id(token_id);
        self.total_supply = self.total_supply - 1;
        self.approvals.remove(&token_id);
        self.token_owner.remove(&token_id);
        proof {
            lemma_burn_wf(pre, *self, owner, token_id);
        }
        Ok(())
    }

    /// Grants or withdraws `operator`'s standing approval over everything
    /// the caller owns. Fails `InvalidArgument` when the caller names
    /// itself; a failed call changes nothing.
    pub fn set_approval_for_all(&mut self, caller: u64, operator: u64, approved: bool) -> (r:
        Result<(), LedgerError>)
        requires
            old(self).wf(),
        ensures
            final(self).wf(),
            ({
                let pre = *old(self);
                let post = *final(self);
                if operator == caller {
                    r == Err::<(), LedgerError>(LedgerError::InvalidArgument) && post == pre
                } else {
                    &&& r == Ok::<(), LedgerError>(())
                    &&& forall|o: u64, p: u64| #[trigger]
                        post.operator_approved(o, p) == if o == caller && p == operator {
                            approved
                        } else {
                            pre.operator_approved(o, p)
                        }
                    &&& post.owner_map() == pre.owner_map()
                    &&& post.approval_map() == pre.approval_map()
                    &&& post.escrow_map() == pre.escrow_map()
                    &&& post.all_ids() == pre.all_ids()
                    &&& post.spec_total_supply() == pre.spec_total_supply()
                    &&& forall|o: u64| #[trigger] post.owned_ids(o) == pre.owned_ids(o)
                    &&& forall|o: u64| #[trigger] post.count_of(o) == pre.count_of(o)
                }
            }),
    {
        if operator == caller {
            return Err(LedgerError::InvalidArgument);
        }
        let found = self.find_operator(caller, operator);
        if approved {
            if found.is_none() {
                proof {
                    lemma_push_contains(self.operators@, (caller, operator));
                    assert forall|a: int, b: int|
                        0 <= a < self.operators@.push((caller, operator)).len() && 0 <= b
                            < self.operators@.push((caller, operator)).len() && a != b implies
                        self.operators@.push((caller, operator))[a] != self.operators@.push(
                        (caller, operator),
                    )[b] by {
                        let s = self.operators@;
                        if a < s.len() && b < s.len() {
                            assert(s[a] != s[b]);
                        } else if a < s.len() {
                            assert(s[a] != (caller, operator));
                        } else {
                            assert(s[b] != (caller, operator));
                        }
                    }
                }
                self.operators.push((caller, operator));
            }
        } else {
            match found {
                Some(i) => {
                    proof {
                        lemma_swap_remove_contains(self.operators@, i as int);
                    }
                    let _ = self.operators.swap_remove(i);
                },
                None => {},
            }
        }
        proof {
            lemma_owned_or_escrowed_preserved(*old(self), *self);
        }
        Ok(())
    }

    /// The stored `total_supply` counter; under the invariant it equals the
    /// length of the global enumeration.
    pub fn total_supply(&self) -> (r: u64)
        ensures
            r == self.spec_total_supply(),
            self.wf() ==> r == self.all_ids().len(),
    {
        self.total_supply
    }

    /// `owner`'s stored token count.
    pub fn balance_of(&self, owner: u64) -> (r: u64)
        requires
            self.wf(),
        ensures
            r == self.count_of(owner),
    {
        match self.find_slot(owner) {
            Some(i) => {
                proof {
                    lemma_slot_at(self.owners@, i as int);
                }
                self.owners[i].count
            },
            None => 0,
        }
    }

    /// The asset in slot `index` of the global enumeration, if any.
    pub fn token_by_index(&self, index: u64) -> (r: Option<u64>)
        ensures
            match r {
                Some(t) => index < self.all_ids().len() && t == self.all_ids()[index as int],
                None => index >= self.all_ids().len(),
            },
    {
        if index < self.all_tokens.len() as u64 {
            Some(self.all_tokens.at(index as usize))
        } else {
            None
        }
    }

    /// The asset in slot `index` of `owner`'s enumeration, if any.
    pub fn token_of_owner_by_index(&self, owner: u64, index: u64) -> (r: Option<u64>)
        requires
            self.wf(),
        ensures
            match r {
                Some(t) => index < self.owned_ids(owner).len() && t == self.owned_ids(
                    owner,
                )[index as int],
                None => index >= self.owned_ids(owner).len(),
            },
    {
        match self.find_slot(owner) {
            Some(i) => {
                proof {
                    lemma_slot_at(self.owners@, i as int);
                }
                if index < self.owners[i].tokens.len() as u64 {
                    Some(self.owners[i].tokens.at(index as usize))
                } else {
                    None
                }
            },
            None => None,
        }
    }

    /// The single approved spender of `token_id`, if one is set.
    pub fn get_approved(&self, token_id: u64) -> (r: Option<u64>)
        ensures
            r == (if self.approval_map().contains_key(token_id) {
                Some(self.approval_map()[token_id])
            } else {
                None::<u64>
            }),
    {
        match self.approvals.get(&token_id) {
            Some(a) => Some(*a),
            None => None,
        }
    }

    /// The asset escrowed under `lock_key`, if any.
    pub fn get_escrow(&self, lock_key: u64) -> (r: Option<u64>)
        ensures
            r == (if self.escrow_map().contains_key(lock_key) {
                Some(self.escrow_map()[lock_key])
            } else {
                None::<u64>
            }),
    {
        match self.escrow.get(&lock_key) {
            Some(t) => Some(*t),
            None => None,
        }
    }
}

/// The sum of `reg.count_of` over `accounts`.
pub open spec fn counts_sum(reg: Registry, accounts: Seq<u64>) -> int
    decreases accounts.len(),
{
    if accounts.len() == 0 {
        0
    } else {
        counts_sum(reg, accounts.drop_last()) + reg.count_of(accounts.last())
    }
}

/// Law: a minted asset has no owner exactly when some escrow entry
/// references it, and no two escrow entries reference the same asset — so
/// `owner = none` holds iff exactly one escrow entry holds the asset.
pub proof fn lemma_ownerless_iff_escrowed(reg: Registry, token_id: u64)
    requires
        reg.wf(),
        reg.minted(token_id),
    ensures
        (reg.owner_of_spec(token_id) is None) <==> (exists|k: u64| #[trigger]
            reg.escrow_map().contains_key(k) && reg.escrow_map()[k] == token_id),
        forall|k1: u64, k2: u64|
            #![trigger reg.escrow_map()[k1], reg.escrow_map()[k2]]
            reg.escrow_map().contains_key(k1) && reg.escrow_map().contains_key(k2)
                && reg.escrow_map()[k1] == token_id && reg.escrow_map()[k2] == token_id ==> k1
                == k2,
{
    let i = choose|i: int| 0 <= i < reg.all_tokens@.len() && reg.all_tokens@[i] == token_id;
    assert(reg.all_tokens@[i] == token_id);
    if reg.owner_of_spec(token_id) is None {
        assert(!reg.token_owner@.contains_key(reg.all_tokens@[i]));
        let k = choose|k: u64| #[trigger]
            reg.escrow@.contains_key(k) && reg.escrow@[k] == reg.all_tokens@[i];
        assert(reg.escrow_map().contains_key(k) && reg.escrow_map()[k] == token_id);
    }
    if exists|k: u64| #[trigger]
        reg.escrow_map().contains_key(k) && reg.escrow_map()[k] == token_id {
        let k = choose|k: u64| #[trigger]
            reg.escrow_map().contains_key(k) && reg.escrow_map()[k] == token_id;
        assert(!reg.token_owner@.contains_key(reg.escrow@[k]));
    }
}

/// Law: every owner's stored count equals the length of its enumeration
/// array, and the counts over the owner accounts plus the escrow entries
/// add up to `total_supply`. With nothing escrowed, the counts alone add
/// up to `total_supply`.
pub proof fn lemma_enumeration_counts(reg: Registry)
    requires
        reg.wf(),
    ensures
        forall|o: u64| #[trigger] reg.count_of(o) as int == reg.owned_ids(o).len(),
        reg.owner_accounts().no_duplicates(),
        forall|o: u64| !reg.owner_accounts().contains(o) ==> #[trigger] reg.count_of(o) == 0,
        counts_sum(reg, reg.owner_accounts()) + reg.escrow_map().dom().len()
            == reg.spec_total_supply() as int,
        reg.escrow_map().dom() =~= Set::<u64>::empty() ==> counts_sum(reg, reg.owner_accounts())
            == reg.spec_total_supply() as int,
{
    assert forall|o: u64| #[trigger] reg.count_of(o) as int == reg.owned_ids(o).len() by {
        if slots_has(reg.owners@, o) {
            let i = slots_index(reg.owners@, o);
            assert(0 <= i < reg.owners@.len() && reg.owners@[i].owner == o);
        }
    }
    assert forall|o: u64| !reg.owner_accounts().contains(o) implies #[trigger] reg.count_of(o)
        == 0 by {
        if slots_has(reg.owners@, o) {
            let i = slots_index(reg.owners@, o);
            assert(reg.owner_accounts()[i] == o);
        }
    }
    let n: int = reg.owners@.len() as int;
    lemma_counts_sum_prefix(reg, n);
    assert(reg.owner_accounts().take(n) =~= reg.owner_accounts());
    assert(reg.owners@.take(n) =~= reg.owners@);
    if reg.escrow_map().dom() =~= Set::<u64>::empty() {
        assert(reg.escrow_map().dom().len() == 0);
    }
}

/// The counts over the first `n` owner accounts equal the stored-count sum
/// over the first `n` slots.
proof fn lemma_counts_sum_prefix(reg: Registry, n: int)
    requires
        slots_distinct(reg.owners@),
        0 <= n <= reg.owners@.len(),
    ensures
        counts_sum(reg, reg.owner_accounts().take(n)) == sum_counts(reg.owners@.take(n)),
    decreases n,
{
    if n == 0 {
        assert(reg.owner_accounts().take(0) =~= Seq::<u64>::empty());
        assert(reg.owners@.take(0) =~= Seq::<OwnerSlot>::empty());
    } else {
        lemma_counts_sum_prefix(reg, n - 1);
        let accs = reg.owner_accounts().take(n);
        assert(accs.drop_last() =~= reg.owner_accounts().take(n - 1));
        assert(reg.owners@.take(n).drop_last() =~= reg.owners@.take(n - 1));
        assert(accs.last() == reg.owners@[n - 1].owner);
        lemma_slot_at(reg.owners@, n - 1);
        assert(reg.count_of(accs.last()) == reg.owners@[n - 1].count);
        assert(reg.owners@.take(n).last() == reg.owners@[n - 1]);
    }
}

/// Re-establishes the registry invariant after a mint, given the component
/// changes the mint body produced.
proof fn lemma_mint_wf(pre: Registry, post: Registry, to: u64, token_id: u64)
    requires
        pre.wf(),
        !pre.minted(token_id),
        pre.spec_total_supply() < u64::MAX,
        post.all_tokens.wf(),
        post.all_tokens@ == pre.all_tokens@.push(token_id),
        post.total_supply == pre.total_supply + 1,
        post.token_owner@ == pre.token_owner@.insert(token_id, to),
        post.approvals@ == pre.approvals@,
        post.escrow@ == pre.escrow@,
        post.operators@ == pre.operators@,
        slots_distinct(post.owners@),
        slots_has(post.owners@, to),
        slots_owned(post.owners@, to) == slots_owned(pre.owners@, to).push(token_id),
        slots_count(post.owners@, to) == slots_count(pre.owners@, to) + 1,
        forall|o: u64|
            o != to ==> #[trigger] slots_owned(post.owners@, o) == slots_owned(pre.owners@, o)
                && slots_count(post.owners@, o) == slots_count(pre.owners@, o) && slots_has(
                post.owners@,
                o,
            ) == slots_has(pre.owners@, o),
        sum_counts(post.owners@) == sum_counts(pre.owners@) + 1,
        forall|i: int|
            0 <= i < post.owners@.len() ==> (#[trigger] post.owners@[i]).tokens.wf()
                && post.owners@[i].count == post.owners@[i].tokens@.len(),
    ensures
        post.wf(),
{
    assert forall|i: int, j: int|
        #![trigger post.owners@[i].tokens@[j]]
        0 <= i < post.owners@.len() && 0 <= j < post.owners@[i].tokens@.len() implies {
        &&& post.token_owner@.contains_key(post.owners@[i].tokens@[j])
        &&& post.token_owner@[post.owners@[i].tokens@[j]] == post.owners@[i].owner
    } by {
        let o = post.owners@[i].owner;
        let t = post.owners@[i].tokens@[j];
        lemma_slot_at(post.owners@, i);
        assert(slots_owned(post.owners@, o)[j] == t);
        if o == to {
            if j < slots_owned(pre.owners@, to).len() {
                assert(slots_owned(pre.owners@, to)[j] == t);
                assert(slots_has(pre.owners@, to));
                let a = slots_index(pre.owners@, to);
                assert(0 <= a < pre.owners@.len() && pre.owners@[a].owner == to);
                assert(pre.owners@[a].tokens@[j] == t);
                assert(pre.token_owner@[t] == to);
                assert(pre.all_tokens@.contains(t));
                assert(t != token_id);
            } else {
                assert(t == token_id);
            }
        } else {
            assert(slots_owned(pre.owners@, o)[j] == t);
            assert(slots_has(pre.owners@, o));
            let a = slots_index(pre.owners@, o);
            assert(0 <= a < pre.owners@.len() && pre.owners@[a].owner == o);
            assert(pre.owners@[a].tokens@[j] == t);
            assert(pre.token_owner@[t] == o);
            assert(pre.all_tokens@.contains(t));
            assert(t != token_id);
        }
    }
    assert forall|t: u64| #[trigger]
        post.token_owner@.contains_key(t) implies slots_has(post.owners@, post.token_owner@[t])
        && slots_owned(post.owners@, post.token_owner@[t]).contains(t) by {
        if t == token_id {
            let s = slots_owned(post.owners@, to);
            assert(s[s.len() - 1] == token_id);
            assert(s.contains(token_id));
        } else {
            assert(pre.token_owner@.contains_key(t));
            let o = pre.token_owner@[t];
            assert(slots_owned(pre.owners@, o).contains(t));
            if o == to {
                let j = choose|j: int|
                    0 <= j < slots_owned(pre.owners@, o).len() && slots_owned(pre.owners@, o)[j]
                        == t;
                assert(slots_owned(post.owners@, o)[j] == t);
                assert(slots_owned(post.owners@, o).contains(t));
            } else {
                assert(slots_owned(post.owners@, o) == slots_owned(pre.owners@, o));
                assert(slots_has(post.owners@, o) == slots_has(pre.owners@, o));
            }
        }
    }
    assert forall|t: u64| #[trigger]
        post.token_owner@.contains_key(t) implies post.all_tokens@.contains(t) by {
        if t == token_id {
            assert(post.all_tokens@.last() == token_id);
        } else {
            let i = choose|i: int|
                0 <= i < pre.all_tokens@.len() && pre.all_tokens@[i] == t;
            assert(post.all_tokens@[i] == t);
        }
    }
    assert forall|k: u64| #[trigger]
        post.escrow@.contains_key(k) implies post.all_tokens@.contains(post.escrow@[k])
        && !post.token_owner@.contains_key(post.escrow@[k]) by {
        assert(pre.all_tokens@.contains(pre.escrow@[k]));
        let i = choose|i: int|
            0 <= i < pre.all_tokens@.len() && pre.all_tokens@[i] == pre.escrow@[k];
        assert(post.all_tokens@[i] == pre.escrow@[k]);
        assert(pre.escrow@[k] != token_id);
    }
    assert forall|i: int|
        0 <= i < post.all_tokens@.len() implies post.token_owner@.contains_key(
        #[trigger] post.all_tokens@[i],
    ) || exists|k: u64| #[trigger]
        post.escrow@.contains_key(k) && post.escrow@[k] == post.all_tokens@[i] by {
        if i < pre.all_tokens@.len() {
            assert(post.all_tokens@[i] == pre.all_tokens@[i]);
            if pre.token_owner@.contains_key(pre.all_tokens@[i]) {
                assert(post.token_owner@.contains_key(post.all_tokens@[i]));
            }
        } else {
            assert(post.all_tokens@[i] == token_id);
            assert(post.token_owner@.contains_key(token_id));
        }
    }
}

/// Re-establishes the registry invariant after a transfer, given the
/// component changes the transfer body produced. The per-owner enumeration
/// changes are taken as membership characterizations, which cover both the
/// `from == to` and the `from != to` shape.
proof fn lemma_transfer_wf(pre: Registry, post: Registry, from: u64, to: u64, token_id: u64)
    requires
        pre.wf(),
        pre.token_owner@.contains_key(token_id),
        pre.token_owner@[token_id] == from,
        post.all_tokens == pre.all_tokens,
        post.total_supply == pre.total_supply,
        post.escrow@ == pre.escrow@,
        post.operators@ == pre.operators@,
        post.token_owner@ == pre.token_owner@.insert(token_id, to),
        post.approvals@ == pre.approvals@.remove(token_id),
        slots_distinct(post.owners@),
        forall|i: int|
            0 <= i < post.owners@.len() ==> (#[trigger] post.owners@[i]).tokens.wf()
                && post.owners@[i].count == post.owners@[i].tokens@.len(),
        sum_counts(post.owners@) == sum_counts(pre.owners@),
        slots_has(post.owners@, from),
        slots_has(post.owners@, to),
        forall|x: u64|
            #[trigger] slots_owned(post.owners@, from).contains(x) <==> ((slots_owned(
                pre.owners@,
                from,
            ).contains(x) && x != token_id) || (from == to && x == token_id)),
        forall|x: u64|
            #[trigger] slots_owned(post.owners@, to).contains(x) <==> ((slots_owned(
                pre.owners@,
                to,
            ).contains(x) && x != token_id) || x == token_id),
        forall|o: u64|
            o != from && o != to ==> #[trigger] slots_owned(post.owners@, o) == slots_owned(
                pre.owners@,
                o,
            ) && slots_has(post.owners@, o) == slots_has(pre.owners@, o),
    ensures
        post.wf(),
{
    assert forall|i: int, j: int|
        #![trigger post.owners@[i].tokens@[j]]
        0 <= i < post.owners@.len() && 0 <= j < post.owners@[i].tokens@.len() implies {
        &&& post.token_owner@.contains_key(post.owners@[i].tokens@[j])
        &&& post.token_owner@[post.owners@[i].tokens@[j]] == post.owners@[i].owner
    } by {
        let o = post.owners@[i].owner;
        let t = post.owners@[i].tokens@[j];
        lemma_slot_at(post.owners@, i);
        assert(slots_owned(post.owners@, o)[j] == t);
        assert(slots_owned(post.owners@, o).contains(t));
        if t == token_id {
            assert(o == to);
        } else {
            assert(slots_owned(pre.owners@, o).contains(t));
            assert(slots_has(pre.owners@, o));
            let a = slots_index(pre.owners@, o);
            assert(0 <= a < pre.owners@.len() && pre.owners@[a].owner == o);
            let b = choose|b: int|
                0 <= b < pre.owners@[a].tokens@.len() && pre.owners@[a].tokens@[b] == t;
            assert(pre.owners@[a].tokens@[b] == t);
            assert(pre.token_owner@[t] == o);
        }
    }
    assert forall|t: u64| #[trigger]
        post.token_owner@.contains_key(t) implies slots_has(post.owners@, post.token_owner@[t])
        && slots_owned(post.owners@, post.token_owner@[t]).contains(t) by {
        if t == token_id {
            assert(slots_owned(post.owners@, to).contains(token_id));
        } else {
            assert(pre.token_owner@.contains_key(t));
            let o = pre.token_owner@[t];
            assert(slots_owned(pre.owners@, o).contains(t));
            if o == from || o == to {
                assert(slots_owned(post.owners@, o).contains(t));
            } else {
                assert(slots_owned(post.owners@, o) == slots_owned(pre.owners@, o));
                assert(slots_has(post.owners@, o) == slots_has(pre.owners@, o));
            }
        }
    }
    assert forall|t: u64| #[trigger]
        post.token_owner@.contains_key(t) implies post.all_tokens@.contains(t) by {
        if t != token_id {
            assert(pre.token_owner@.contains_key(t));
        }
    }
    assert forall|k: u64| #[trigger]
        post.escrow@.contains_key(k) implies post.all_tokens@.contains(post.escrow@[k])
        && !post.token_owner@.contains_key(post.escrow@[k]) by {
        assert(pre.escrow@.contains_key(k));
        assert(!pre.token_owner@.contains_key(pre.escrow@[k]));
        assert(pre.escrow@[k] != token_id);
    }
    assert forall|i: int|
        0 <= i < post.all_tokens@.len() implies post.token_owner@.contains_key(
        #[trigger] post.all_tokens@[i],
    ) || exists|k: u64| #[trigger]
        post.escrow@.contains_key(k) && post.escrow@[k] == post.all_tokens@[i] by {
        if !post.token_owner@.contains_key(post.all_tokens@[i]) {
            assert(pre.all_tokens@[i] == post.all_tokens@[i]);
            assert(!pre.token_owner@.contains_key(pre.all_tokens@[i]));
            let k = choose|k: u64| #[trigger]
                pre.escrow@.contains_key(k) && pre.escrow@[k] == pre.all_tokens@[i];
            assert(post.escrow@.contains_key(k) && post.escrow@[k] == post.all_tokens@[i]);
        }
    }
}

/// Re-establishes the registry invariant after an escrow lock, given the
/// component changes the lock body produced.
proof fn lemma_escrow_lock_wf(
    pre: Registry,
    post: Registry,
    owner: u64,
    token_id: u64,
    lock_key: u64,
)
    requires
        pre.wf(),
        pre.token_owner@.contains_key(token_id),
        pre.token_owner@[token_id] == owner,
        !pre.escrow@.contains_key(lock_key),
        post.all_tokens == pre.all_tokens,
        post.total_supply == pre.total_supply,
        post.operators@ == pre.operators@,
        post.token_owner@ == pre.token_owner@.remove(token_id),
        post.approvals@ == pre.approvals@.remove(token_id),
        post.escrow@ == pre.escrow@.insert(lock_key, token_id),
        slots_distinct(post.owners@),
        forall|i: int|
            0 <= i < post.owners@.len() ==> (#[trigger] post.owners@[i]).tokens.wf()
                && post.owners@[i].count == post.owners@[i].tokens@.len(),
        sum_counts(post.owners@) == sum_counts(pre.owners@) - 1,
        slots_has(post.owners@, owner),
        forall|x: u64|
            #[trigger] slots_owned(post.owners@, owner).contains(x) <==> (slots_owned(
                pre.owners@,
                owner,
            ).contains(x) && x != token_id),
        forall|o: u64|
            o != owner ==> #[trigger] slots_owned(post.owners@, o) == slots_owned(pre.owners@, o)
                && slots_has(post.owners@, o) == slots_has(pre.owners@, o),
    ensures
        post.wf(),
{
    assert forall|i: int, j: int|
        #![trigger post.owners@[i].tokens@[j]]
        0 <= i < post.owners@.len() && 0 <= j < post.owners@[i].tokens@.len() implies {
        &&& post.token_owner@.contains_key(post.owners@[i].tokens@[j])
        &&& post.token_owner@[post.owners@[i].tokens@[j]] == post.owners@[i].owner
    } by {
        let o = post.owners@[i].owner;
        let t = post.owners@[i].tokens@[j];
        lemma_slot_at(post.owners@, i);
        assert(slots_owned(post.owners@, o)[j] == t);
        assert(slots_owned(post.owners@, o).contains(t));
        assert(slots_owned(pre.owners@, o).contains(t));
        assert(slots_has(pre.owners@, o));
        let a = slots_index(pre.owners@, o);
        assert(0 <= a < pre.owners@.len() && pre.owners@[a].owner == o);
        let b = choose|b: int|
            0 <= b < pre.owners@[a].tokens@.len() && pre.owners@[a].tokens@[b] == t;
        assert(pre.owners@[a].tokens@[b] == t);
        assert(pre.token_owner@[t] == o);
        assert(t != token_id);
    }
    assert forall|t: u64| #[trigger]
        post.token_owner@.contains_key(t) implies slots_has(post.owners@, post.token_owner@[t])
        && slots_owned(post.owners@, post.token_owner@[t]).contains(t) by {
        assert(pre.token_owner@.contains_key(t) && t != token_id);
        let o = pre.token_owner@[t];
        assert(slots_owned(pre.owners@, o).contains(t));
        if o == owner {
            assert(slots_owned(post.owners@, o).contains(t));
        } else {
            assert(slots_owned(post.owners@, o) == slots_owned(pre.owners@, o));
            assert(slots_has(post.owners@, o) == slots_has(pre.owners@, o));
        }
    }
    assert forall|k: u64| #[trigger]
        post.escrow@.contains_key(k) implies post.all_tokens@.contains(post.escrow@[k])
        && !post.token_owner@.contains_key(post.escrow@[k]) by {
        if k == lock_key {
            assert(post.escrow@[k] == token_id);
            assert(pre.all_tokens@.contains(token_id));
        } else {
            assert(pre.escrow@.contains_key(k));
            assert(pre.escrow@[k] != token_id);
        }
    }
    assert forall|k1: u64, k2: u64|
        #![trigger post.escrow@[k1], post.escrow@[k2]]
        post.escrow@.contains_key(k1) && post.escrow@.contains_key(k2) && post.escrow@[k1]
            == post.escrow@[k2] implies k1 == k2 by {
        if k1 != lock_key && k2 != lock_key {
            assert(pre.escrow@.contains_key(k1) && pre.escrow@.contains_key(k2));
        } else if k1 == lock_key && k2 != lock_key {
            assert(pre.escrow@[k2] != token_id);
        } else if k2 == lock_key && k1 != lock_key {
            assert(pre.escrow@[k1] != token_id);
        }
    }
    assert forall|i: int|
        0 <= i < post.all_tokens@.len() implies post.token_owner@.contains_key(
        #[trigger] post.all_tokens@[i],
    ) || exists|k: u64| #[trigger]
        post.escrow@.contains_key(k) && post.escrow@[k] == post.all_tokens@[i] by {
        let t = post.all_tokens@[i];
        assert(pre.all_tokens@[i] == t);
        if t == token_id {
            assert(post.escrow@.contains_key(lock_key) && post.escrow@[lock_key] == t);
        } else if pre.token_owner@.contains_key(t) {
            assert(post.token_owner@.contains_key(t));
        } else {
            let k = choose|k: u64| #[trigger]
                pre.escrow@.contains_key(k) && pre.escrow@[k] == t;
            assert(post.escrow@.contains_key(k) && post.escrow@[k] == t);
        }
    }
}

/// Re-establishes the registry invariant after an escrow release, given
/// the component changes the release body produced.
proof fn lemma_escrow_release_wf(
    pre: Registry,
    post: Registry,
    to: u64,
    token_id: u64,
    lock_key: u64,
)
    requires
        pre.wf(),
        pre.escrow@.contains_key(lock_key),
        pre.escrow@[lock_key] == token_id,
        post.all_tokens == pre.all_tokens,
        post.total_supply == pre.total_supply,
        post.operators@ == pre.operators@,
        post.token_owner@ == pre.token_owner@.insert(token_id, to),
        post.approvals@ == pre.approvals@,
        post.escrow@ == pre.escrow@.remove(lock_key),
        slots_distinct(post.owners@),
        forall|i: int|
            0 <= i < post.owners@.len() ==> (#[trigger] post.owners@[i]).tokens.wf()
                && post.owners@[i].count == post.owners@[i].tokens@.len(),
        sum_counts(post.owners@) == sum_counts(pre.owners@) + 1,
        slots_has(post.owners@, to),
        slots_owned(post.owners@, to) == slots_owned(pre.owners@, to).push(token_id),
        forall|o: u64|
            o != to ==> #[trigger] slots_owned(post.owners@, o) == slots_owned(pre.owners@, o)
                && slots_has(post.owners@, o) == slots_has(pre.owners@, o),
    ensures
        post.wf(),
{
    assert(!pre.token_owner@.contains_key(token_id));
    lemma_push_contains(slots_owned(pre.owners@, to), token_id);
    assert forall|i: int, j: int|
        #![trigger post.owners@[i].tokens@[j]]
        0 <= i < post.owners@.len() && 0 <= j < post.owners@[i].tokens@.len() implies {
        &&& post.token_owner@.contains_key(post.owners@[i].tokens@[j])
        &&& post.token_owner@[post.owners@[i].tokens@[j]] == post.owners@[i].owner
    } by {
        let o = post.owners@[i].owner;
        let t = post.owners@[i].tokens@[j];
        lemma_slot_at(post.owners@, i);
        assert(slots_owned(post.owners@, o)[j] == t);
        assert(slots_owned(post.owners@, o).contains(t));
        if t == token_id {
            assert(o == to) by {
                if o != to {
                    assert(slots_owned(pre.owners@, o).contains(t));
                    assert(slots_has(pre.owners@, o));
                    let a = slots_index(pre.owners@, o);
                    let b = choose|b: int|
                        0 <= b < pre.owners@[a].tokens@.len() && pre.owners@[a].tokens@[b] == t;
                    assert(pre.token_owner@.contains_key(t));
                }
            }
        } else {
            let owned_pre = if o == to {
                slots_owned(pre.owners@, to)
            } else {
                slots_owned(pre.owners@, o)
            };
            assert(owned_pre.contains(t));
            assert(slots_has(pre.owners@, o)) by {
                assert(owned_pre.len() > 0);
            }
            let a = slots_index(pre.owners@, o);
            assert(0 <= a < pre.owners@.len() && pre.owners@[a].owner == o);
            let b = choose|b: int|
                0 <= b < pre.owners@[a].tokens@.len() && pre.owners@[a].tokens@[b] == t;
            assert(pre.owners@[a].tokens@[b] == t);
            assert(pre.token_owner@[t] == o);
        }
    }
    assert forall|t: u64| #[trigger]
        post.token_owner@.contains_key(t) implies slots_has(post.owners@, post.token_owner@[t])
        && slots_owned(post.owners@, post.token_owner@[t]).contains(t) by {
        if t == token_id {
            let n: int = slots_owned(pre.owners@, to).len() as int;
            assert(slots_owned(post.owners@, to)[n] == token_id);
            assert(slots_owned(post.owners@, to).contains(token_id));
        } else {
            assert(pre.token_owner@.contains_key(t));
            let o = pre.token_owner@[t];
            assert(slots_owned(pre.owners@, o).contains(t));
            if o == to {
                assert(slots_owned(post.owners@, to).contains(t));
            } else {
                assert(slots_owned(post.owners@, o) == slots_owned(pre.owners@, o));
                assert(slots_has(post.owners@, o) == slots_has(pre.owners@, o));
            }
        }
    }
    assert forall|t: u64| #[trigger]
        post.token_owner@.contains_key(t) implies post.all_tokens@.contains(t) by {
        if t == token_id {
            assert(pre.all_tokens@.contains(token_id));
        } else {
            assert(pre.token_owner@.contains_key(t));
        }
    }
    assert forall|k: u64| #[trigger]
        post.escrow@.contains_key(k) implies post.all_tokens@.contains(post.escrow@[k])
        && !post.token_owner@.contains_key(post.escrow@[k]) by {
        assert(pre.escrow@.contains_key(k) && k != lock_key);
        assert(pre.escrow@[k] != token_id);
    }
    assert forall|i: int|
        0 <= i < post.all_tokens@.len() implies post.token_owner@.contains_key(
        #[trigger] post.all_tokens@[i],
    ) || exists|k: u64| #[trigger]
        post.escrow@.contains_key(k) && post.escrow@[k] == post.all_tokens@[i] by {
        let t = post.all_tokens@[i];
        assert(pre.all_tokens@[i] == t);
        if t == token_id {
            assert(post.token_owner@.contains_key(t));
        } else if pre.token_owner@.contains_key(t) {
            assert(post.token_owner@.contains_key(t));
        } else {
            let k = choose|k: u64| #[trigger]
                pre.escrow@.contains_key(k) && pre.escrow@[k] == t;
            assert(k != lock_key);
            assert(post.escrow@.contains_key(k) && post.escrow@[k] == t);
        }
    }
}

/// Re-establishes the registry invariant after a burn, given the component
/// changes the burn body produced.
proof fn lemma_burn_wf(pre: Registry, post: Registry, owner: u64, token_id: u64)
    requires
        pre.wf(),
        pre.token_owner@.contains_key(token_id),
        pre.token_owner@[token_id] == owner,
        post.all_tokens.wf(),
        forall|x: u64|
            #[trigger] post.all_tokens@.contains(x) <==> (pre.all_tokens@.contains(x) && x
                != token_id),
        post.all_tokens@.len() == pre.all_tokens@.len() - 1,
        post.total_supply == pre.total_supply - 1,
        post.operators@ == pre.operators@,
        post.token_owner@ == pre.token_owner@.remove(token_id),
        post.approvals@ == pre.approvals@.remove(token_id),
        post.escrow@ == pre.escrow@,
        slots_distinct(post.owners@),
        forall|i: int|
            0 <= i < post.owners@.len() ==> (#[trigger] post.owners@[i]).tokens.wf()
                && post.owners@[i].count == post.owners@[i].tokens@.len(),
        sum_counts(post.owners@) == sum_counts(pre.owners@) - 1,
        slots_has(post.owners@, owner),
        forall|x: u64|
            #[trigger] slots_owned(post.owners@, owner).contains(x) <==> (slots_owned(
                pre.owners@,
                owner,
            ).contains(x) && x != token_id),
        forall|o: u64|
            o != owner ==> #[trigger] slots_owned(post.owners@, o) == slots_owned(pre.owners@, o)
                && slots_has(post.owners@, o) == slots_has(pre.owners@, o),
    ensures
        post.wf(),
{
    assert forall|i: int, j: int|
        #![trigger post.owners@[i].tokens@[j]]
        0 <= i < post.owners@.len() && 0 <= j < post.owners@[i].tokens@.len() implies {
        &&& post.token_owner@.contains_key(post.owners@[i].tokens@[j])
        &&& post.token_owner@[post.owners@[i].tokens@[j]] == post.owners@[i].owner
    } by {
        let o = post.owners@[i].owner;
        let t = post.owners@[i].tokens@[j];
        lemma_slot_at(post.owners@, i);
        assert(slots_owned(post.owners@, o)[j] == t);
        assert(slots_owned(post.owners@, o).contains(t));
        assert(slots_owned(pre.owners@, o).contains(t));
        assert(slots_has(pre.owners@, o));
        let a = slots_index(pre.owners@, o);
        assert(0 <= a < pre.owners@.len() && pre.owners@[a].owner == o);
        let b = choose|b: int|
            0 <= b < pre.owners@[a].tokens@.len() && pre.owners@[a].tokens@[b] == t;
        assert(pre.owners@[a].tokens@[b] == t);
        assert(pre.token_owner@[t] == o);
        assert(t != token_id);
    }
    assert forall|t: u64| #[trigger]
        post.token_owner@.contains_key(t) implies slots_has(post.owners@, post.token_owner@[t])
        && slots_owned(post.owners@, post.token_owner@[t]).contains(t) by {
        assert(pre.token_owner@.contains_key(t) && t != token_id);
        let o = pre.token_owner@[t];
        assert(slots_owned(pre.owners@, o).contains(t));
        if o == owner {
            assert(slots_owned(post.owners@, o).contains(t));
        } else {
            assert(slots_owned(post.owners@, o) == slots_owned(pre.owners@, o));
            assert(slots_has(post.owners@, o) == slots_has(pre.owners@, o));
        }
    }
    assert forall|t: u64| #[trigger]
        post.token_owner@.contains_key(t) implies post.all_tokens@.contains(t) by {
        assert(pre.token_owner@.contains_key(t) && t != token_id);
        assert(pre.all_tokens@.contains(t));
    }
    assert forall|k: u64| #[trigger]
        post.escrow@.contains_key(k) implies post.all_tokens@.contains(post.escrow@[k])
        && !post.token_owner@.contains_key(post.escrow@[k]) by {
        assert(pre.escrow@.contains_key(k));
        assert(pre.escrow@[k] != token_id);
        assert(pre.all_tokens@.contains(pre.escrow@[k]));
    }
    assert forall|i: int|
        0 <= i < post.all_tokens@.len() implies post.token_owner@.contains_key(
        #[trigger] post.all_tokens@[i],
    ) || exists|k: u64| #[trigger]
        post.escrow@.contains_key(k) && post.escrow@[k] == post.all_tokens@[i] by {
        let t = post.all_tokens@[i];
        assert(post.all_tokens@.contains(t));
        assert(pre.all_tokens@.contains(t) && t != token_id);
        let a = choose|a: int| 0 <= a < pre.all_tokens@.len() && pre.all_tokens@[a] == t;
        if pre.token_owner@.contains_key(t) {
            assert(post.token_owner@.contains_key(t));
        } else {
            let k = choose|k: u64| #[trigger]
                pre.escrow@.contains_key(k) && pre.escrow@[k] == t;
            assert(post.escrow@.contains_key(k) && post.escrow@[k] == t);
        }
    }
}

} // verus!
