//! An enumeration array: an ordered list of asset identifiers together with
//! a reverse index from identifier to position. Insertion appends; removal
//! swaps the last entry into the vacated slot and truncates, so both are
//! constant-time and the reverse index stays exact. The registry keeps one
//! such array per owner and one for all assets.

use std::collections::HashMap;
use vstd::prelude::*;

verus! {

/// The position of `id` in `s`. Meaningful only where `s` holds `id` and
/// holds no duplicates, as an [`Enumeration`] always does.
pub open spec fn position_in(s: Seq<u64>, id: u64) -> int {
    choose|i: int| 0 <= i < s.len() && s[i] == id
}

/// The sequence left by the swap-and-truncate removal of the entry at `i`:
/// the last entry moves into slot `i`, then the last slot is dropped.
pub open spec fn swap_removed(s: Seq<u64>, i: int) -> Seq<u64> {
    s.update(i, s.last()).drop_last()
}

/// An ordered array of identifiers plus its reverse index.
pub struct Enumeration {
    ids: Vec<u64>,
    positions: HashMap<u64, u64>,
}

impl View for Enumeration {
    type V = Seq<u64>;

    closed spec fn view(&self) -> Seq<u64> {
        self.ids@
    }
}

impl Enumeration {
    /// The reverse index is exactly the inverse of the array: every entry's
    /// position is recorded, and every recorded position points back at its
    /// identifier. Duplicates are impossible under this invariant.
    pub closed spec fn wf(&self) -> bool {
        &&& forall|i: int|
            0 <= i < self.ids@.len() ==> self.positions@.contains_key(#[trigger] self.ids@[i])
                && self.positions@[self.ids@[i]] as int == i
        &&& forall|t: u64| #[trigger]
            self.positions@.contains_key(t) ==> (self.positions@[t] as int) < self.ids@.len()
                && self.ids@[self.positions@[t] as int] == t
    }

    proof fn lemma_contains_iff_key(&self)
        requires
            self.wf(),
        ensures
            forall|x: u64| self@.contains(x) <==> self.positions@.contains_key(x),
    {
        assert forall|x: u64| self@.contains(x) implies self.positions@.contains_key(x) by {
            let i: int = choose|i: int| 0 <= i < self.ids@.len() && self.ids@[i] == x;
            assert(self.positions@.contains_key(self.ids@[i]));
        }
        assert forall|x: u64| self.positions@.contains_key(x) implies self@.contains(x) by {
            assert(self.ids@[self.positions@[x] as int] == x);
        }
    }

    /// No identifier occupies two slots.
    pub proof fn lemma_no_duplicates(&self)
        requires
            self.wf(),
        ensures
            self@.no_duplicates(),
    {
        assert forall|i: int, j: int|
            0 <= i < self@.len() && 0 <= j < self@.len() && i != j implies self@[i]
            != self@[j] by {
            if self.ids@[i] == self.ids@[j] {
                assert(self.positions@[self.ids@[i]] as int == i);
                assert(self.positions@[self.ids@[j]] as int == j);
            }
        }
    }

    /// An identifier the array holds sits at `position_in`, and nowhere else.
    pub proof fn lemma_position_in(&self, id: u64)
        requires
            self.wf(),
            self@.contains(id),
        ensures
            0 <= position_in(self@, id) < self@.len(),
            self@[position_in(self@, id)] == id,
            forall|i: int| 0 <= i < self@.len() && self@[i] == id ==> i == position_in(self@, id),
    {
        self.lemma_no_duplicates();
        let p: int = position_in(self@, id);
        assert(0 <= p < self@.len() && self@[p] == id);
    }

    pub fn new() -> (e: Enumeration)
        ensures
            e.wf(),
            e@ == Seq::<u64>::empty(),
    {
        Enumeration { ids: Vec::new(), positions: HashMap::new() }
    }

    pub fn len(&self) -> (n: usize)
        ensures
            n == self@.len(),
    {
        self.ids.len()
    }

    /// The identifier in slot `i`.
    pub fn at(&self, i: usize) -> (id: u64)
        requires
            i < self@.len(),
        ensures
            id == self@[i as int],
    {
        self.ids[i]
    }

    /// Whether the array holds `id`, answered through the reverse index.
    pub fn contains(&self, id: u64) -> (r: bool)
        requires
            self.wf(),
        ensures
            r == self@.contains(id),
    {
        proof {
            self.lemma_contains_iff_key();
        }
        self.positions.contains_key(&id)
    }

    /// Appends `id` at the new last position and records that position.
    pub fn push(&mut self, id: u64)
        requires
            old(self).wf(),
            !old(self)@.contains(id),
        ensures
            final(self).wf(),
            final(self)@ == old(self)@.push(id),
    {
        proof {
            old(self).lemma_contains_iff_key();
        }
        let n: usize = self.ids.len();
        self.positions.insert(id, n as u64);
        self.ids.push(id);
        proof {
            assert forall|i: int|
                0 <= i < self.ids@.len() implies self.positions@.contains_key(
                #[trigger] self.ids@[i],
            ) && self.positions@[self.ids@[i]] as int == i by {
                if i < n {
                    assert(self.ids@[i] == old(self).ids@[i]);
                    assert(old(self).positions@.contains_key(self.ids@[i]));
                }
            }
        }
    }

    /// Removes `id` by the swap-and-truncate algorithm: the last entry moves
    /// into `id`'s slot, its reverse-index entry is updated to that slot,
    /// the last slot is dropped, and `id`'s reverse-index entry is removed.
    pub fn swap_remove_id(&mut self, id: u64)
        requires
            old(self).wf(),
            old(self)@.contains(id),
        ensures
            final(self).wf(),
            final(self)@ == swap_removed(old(self)@, position_in(old(self)@, id)),
            final(self)@.len() == old(self)@.len() - 1,
            forall|x: u64| final(self)@.contains(x) <==> (old(self)@.contains(x) && x != id),
    {
        proof {
            old(self).lemma_contains_iff_key();
            old(self).lemma_position_in(id);
        }
        let p_u64: u64 = match self.positions.get(&id) {
            Some(p) => *p,
            None => {
                proof {
                    assert(false);
                }
                0
            },
        };
        let p: usize = p_u64 as usize;
        let last: usize = self.ids.len() - 1;
        if p != last {
            let last_id: u64 = self.ids[last];
            let slot = &mut self.ids[p];
            *slot = last_id;
            self.positions.insert(last_id, p_u64);
        }
        let _ = self.ids.pop();
        self.positions.remove(&id);
        proof {
            let old_seq = old(self)@;
            assert(p as int == position_in(old_seq, id));
            if p == last {
                assert(self.ids@ =~= swap_removed(old_seq, p as int));
            }
            assert forall|i: int|
                0 <= i < self.ids@.len() implies self.positions@.contains_key(
                #[trigger] self.ids@[i],
            ) && self.positions@[self.ids@[i]] as int == i by {
                if p != last && i == p {
                    assert(self.ids@[i] == old_seq[last as int]);
                } else {
                    assert(self.ids@[i] == old_seq[i]);
                    assert(old(self).positions@[self.ids@[i]] as int == i);
                }
            }
            assert forall|t: u64| #[trigger]
                self.positions@.contains_key(t) implies (self.positions@[t] as int)
                < self.ids@.len() && self.ids@[self.positions@[t] as int] == t by {
                if p != last && t == old_seq[last as int] {
                    assert(self.positions@[t] == p as u64);
                } else {
                    assert(old(self).positions@.contains_key(t));
                    assert(old(self).positions@[t] == self.positions@[t]);
                    let q: int = self.positions@[t] as int;
                    assert(old_seq[q] == t);
                    assert(q != p as int);
                    assert(q != last as int);
                }
            }
            self.lemma_contains_iff_key();
            assert forall|x: u64| self@.contains(x) <==> (old_seq.contains(x) && x != id) by {
                old(self).lemma_contains_iff_key();
                self.lemma_contains_iff_key();
                assert(self.positions@.contains_key(x) <==> (old(self).positions@.contains_key(x)
                    && x != id));
            }
        }
    }
}

} // verus!
