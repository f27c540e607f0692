//! Maintenance of the two derived indexes: the by-pair and by-owner lists of
//! live order counters.  Insertion appends; removal is stable (remaining
//! counters keep their relative order), the compaction policy this engine
//! pins for pagination.

use vstd::prelude::*;
use crate::types::{AccountId, AssetId};
use crate::engine::{owner_ids_except, pair_ids_except, Subcosdex};
use crate::model::{
    a_has, a_unique, ids_at, ids_unique, lemma_a_at, lemma_a_push, lemma_a_update,
    lemma_ids_at, lemma_ids_push, lemma_ids_remove, Assoc,
};

verus! {

/// The position of `id` in a list of order counters, if present.
pub(crate) fn find_id_pos(ids: &Vec<u64>, id: u64) -> (r: Option<usize>)
    ensures
        match r {
            Some(p) => p < ids@.len() && ids@[p as int] == id,
            None => !ids@.contains(id),
        },
{
    let mut i: usize = 0;
    while i < ids.len()
        invariant
            i <= ids@.len(),
            forall|k: int| 0 <= k < i ==> ids@[k] != id,
        decreases ids@.len() - i,
    {
        if ids[i] == id {
            return Some(i);
        }
        i = i + 1;
    }
    None
}

impl Subcosdex {
    /// The position of the index entry for pair `(a1, a2)`, if any.
    pub(crate) fn find_pair_entry(&self, a1: AssetId, a2: AssetId) -> (r: Option<usize>)
        ensures
            match r {
                Some(j) => j < self.pair_index@.len() && self.pair_index@[j as int].key == (
                    a1,
                    a2,
                ),
                None => !a_has(self.pair_index@, (a1, a2)),
            },
    {
        let mut i: usize = 0;
        while i < self.pair_index.len()
            invariant
                i <= self.pair_index@.len(),
                forall|k: int|
                    0 <= k < i ==> (#[trigger] self.pair_index@[k]).key != (a1, a2),
            decreases self.pair_index@.len() - i,
        {
            let e = &self.pair_index[i];
            if e.key.0 == a1 && e.key.1 == a2 {
                return Some(i);
            }
            i = i + 1;
        }
        None
    }

    /// The position of the index entry for `owner`, if any.
    pub(crate) fn find_owner_entry(&self, owner: AccountId) -> (r: Option<usize>)
        ensures
            match r {
                Some(j) => j < self.owner_index@.len() && self.owner_index@[j as int].key
                    == owner,
                None => !a_has(self.owner_index@, owner),
            },
    {
        let mut i: usize = 0;
        while i < self.owner_index.len()
            invariant
                i <= self.owner_index@.len(),
                forall|k: int| 0 <= k < i ==> (#[trigger] self.owner_index@[k]).key != owner,
            decreases self.owner_index@.len() - i,
        {
            let e = &self.owner_index[i];
            if e.key == owner {
                return Some(i);
            }
            i = i + 1;
        }
        None
    }

    /// Appends a fresh counter to the pair list of `(a1, a2)`, creating the
    /// entry if the pair was never listed.  Touches nothing else.
    pub(crate) fn push_pair_id(&mut self, a1: AssetId, a2: AssetId, id: u64)
        requires
            a_unique(old(self).pair_index@),
            forall|b1: AssetId, b2: AssetId| ids_unique(#[trigger] old(self).pair_ids(b1, b2)),
            !old(self).pair_ids(a1, a2).contains(id),
        ensures
            a_unique(final(self).pair_index@),
            forall|b1: AssetId, b2: AssetId| ids_unique(
                #[trigger] final(self).pair_ids(b1, b2),
            ),
            final(self).pair_ids(a1, a2) == old(self).pair_ids(a1, a2).push(id),
            pair_ids_except(*old(self), *final(self), a1, a2),
            final(self).balances@ == old(self).balances@,
            final(self).orders@ == old(self).orders@,
            final(self).owner_index@ == old(self).owner_index@,
            final(self).next_counter == old(self).next_counter,
            final(self).events@ == old(self).events@,
    {
        let ghost pre = *self;
        match self.find_pair_entry(a1, a2) {
            Some(j) => {
                proof {
                    lemma_a_at(pre.pair_index@, (a1, a2), j as int);
                }
                self.pair_index[j].val.push(id);
                proof {
                    let e2 = self.pair_index@[j as int];
                    assert(self.pair_index@ == pre.pair_index@.update(j as int, e2));
                    assert(e2.key == (a1, a2));
                    assert(e2.val@ == pre.pair_ids(a1, a2).push(id));
                    lemma_a_update(pre.pair_index@, j as int, e2);
                    lemma_ids_push(pre.pair_ids(a1, a2), id);
                    assert(self.pair_ids(a1, a2) == pre.pair_ids(a1, a2).push(id));
                    assert forall|b1: AssetId, b2: AssetId| !(b1 == a1 && b2 == a2)
                        implies #[trigger] self.pair_ids(b1, b2) == pre.pair_ids(b1, b2) by {}
                    assert forall|b1: AssetId, b2: AssetId| ids_unique(
                        #[trigger] self.pair_ids(b1, b2),
                    ) by {
                        if !(b1 == a1 && b2 == a2) {
                            assert(self.pair_ids(b1, b2) == pre.pair_ids(b1, b2));
                        }
                    }
                }
            },
            None => {
                let mut ids: Vec<u64> = Vec::new();
                ids.push(id);
                self.pair_index.push(Assoc { key: (a1, a2), val: ids });
                proof {
                    let e = self.pair_index@.last();
                    assert(self.pair_index@ == pre.pair_index@.push(e));
                    lemma_a_push(pre.pair_index@, e);
                    assert(pre.pair_ids(a1, a2) =~= Seq::<u64>::empty());
                    assert(self.pair_ids(a1, a2) =~= pre.pair_ids(a1, a2).push(id));
                    lemma_ids_push(pre.pair_ids(a1, a2), id);
                    assert forall|b1: AssetId, b2: AssetId| !(b1 == a1 && b2 == a2)
                        implies #[trigger] self.pair_ids(b1, b2) == pre.pair_ids(b1, b2) by {}
                    assert forall|b1: AssetId, b2: AssetId| ids_unique(
                        #[trigger] self.pair_ids(b1, b2),
                    ) by {
                        if !(b1 == a1 && b2 == a2) {
                            assert(self.pair_ids(b1, b2) == pre.pair_ids(b1, b2));
                        }
                    }
                }
            },
        }
    }

    /// Removes one counter from the pair list of `(a1, a2)`, stably: the
    /// remaining counters keep their relative order.  Touches nothing else.
    pub(crate) fn remove_pair_id(&mut self, a1: AssetId, a2: AssetId, id: u64)
        requires
            a_unique(old(self).pair_index@),
            forall|b1: AssetId, b2: AssetId| ids_unique(#[trigger] old(self).pair_ids(b1, b2)),
            old(self).pair_ids(a1, a2).contains(id),
        ensures
            a_unique(final(self).pair_index@),
            forall|b1: AssetId, b2: AssetId| ids_unique(
                #[trigger] final(self).pair_ids(b1, b2),
            ),
            final(self).pair_ids(a1, a2) == old(self).pair_ids(a1, a2).remove(
                ids_at(old(self).pair_ids(a1, a2), id),
            ),
            !final(self).pair_ids(a1, a2).contains(id),
            forall|y: u64|
                y != id ==> final(self).pair_ids(a1, a2).contains(y) == old(self).pair_ids(
                    a1,
                    a2,
                ).contains(y),
            pair_ids_except(*old(self), *final(self), a1, a2),
            final(self).balances@ == old(self).balances@,
            final(self).orders@ == old(self).orders@,
            final(self).owner_index@ == old(self).owner_index@,
            final(self).next_counter == old(self).next_counter,
            final(self).events@ == old(self).events@,
    {
        let ghost pre = *self;
        let j = match self.find_pair_entry(a1, a2) {
            Some(j) => j,
            None => {
                proof {
                    assert(false);
                }
                vstd::pervasive::unreached()
            },
        };
        proof {
            lemma_a_at(pre.pair_index@, (a1, a2), j as int);
        }
        let p = match find_id_pos(&self.pair_index[j].val, id) {
            Some(p) => p,
            None => {
                proof {
                    assert(false);
                }
                vstd::pervasive::unreached()
            },
        };
        let _removed = self.pair_index[j].val.remove(p);
        proof {
            lemma_ids_at(pre.pair_ids(a1, a2), id, p as int);
            let e2 = self.pair_index@[j as int];
            assert(self.pair_index@ == pre.pair_index@.update(j as int, e2));
            assert(e2.key == (a1, a2));
            assert(e2.val@ == pre.pair_ids(a1, a2).remove(p as int));
            lemma_a_update(pre.pair_index@, j as int, e2);
            lemma_ids_remove(pre.pair_ids(a1, a2), p as int);
            assert(self.pair_ids(a1, a2) == pre.pair_ids(a1, a2).remove(p as int));
            assert forall|b1: AssetId, b2: AssetId| !(b1 == a1 && b2 == a2)
                implies #[trigger] self.pair_ids(b1, b2) == pre.pair_ids(b1, b2) by {}
            assert forall|b1: AssetId, b2: AssetId| ids_unique(
                #[trigger] self.pair_ids(b1, b2),
            ) by {
                if !(b1 == a1 && b2 == a2) {
                    assert(self.pair_ids(b1, b2) == pre.pair_ids(b1, b2));
                }
            }
        }
    }

    /// Appends a fresh counter to `owner`'s list, creating the entry if the
    /// owner was never listed.  Touches nothing else.
    pub(crate) fn push_owner_id(&mut self, owner: AccountId, id: u64)
        requires
            a_unique(old(self).owner_index@),
            forall|a: AccountId| ids_unique(#[trigger] old(self).owner_ids(a)),
            !old(self).owner_ids(owner).contains(id),
        ensures
            a_unique(final(self).owner_index@),
            forall|a: AccountId| ids_unique(#[trigger] final(self).owner_ids(a)),
            final(self).owner_ids(owner) == old(self).owner_ids(owner).push(id),
            owner_ids_except(*old(self), *final(self), owner),
            final(self).balances@ == old(self).balances@,
            final(self).orders@ == old(self).orders@,
            final(self).pair_index@ == old(self).pair_index@,
            final(self).next_counter == old(self).next_counter,
            final(self).events@ == old(self).events@,
    {
        let ghost pre = *self;
        match self.find_owner_entry(owner) {
            Some(j) => {
                proof {
                    lemma_a_at(pre.owner_index@, owner, j as int);
                }
                self.owner_index[j].val.push(id);
                proof {
                    let e2 = self.owner_index@[j as int];
                    assert(self.owner_index@ == pre.owner_index@.update(j as int, e2));
                    assert(e2.key == owner);
                    assert(e2.val@ == pre.owner_ids(owner).push(id));
                    lemma_a_update(pre.owner_index@, j as int, e2);
                    lemma_ids_push(pre.owner_ids(owner), id);
                    assert(self.owner_ids(owner) == pre.owner_ids(owner).push(id));
                    assert forall|a: AccountId| a != owner
                        implies #[trigger] self.owner_ids(a) == pre.owner_ids(a) by {}
                    assert forall|a: AccountId| ids_unique(#[trigger] self.owner_ids(a)) by {
                        if a != owner {
                            assert(self.owner_ids(a) == pre.owner_ids(a));
                        }
                    }
                }
            },
            None => {
                let mut ids: Vec<u64> = Vec::new();
                ids.push(id);
                self.owner_index.push(Assoc { key: owner, val: ids });
                proof {
                    let e = self.owner_index@.last();
                    assert(self.owner_index@ == pre.owner_index@.push(e));
                    lemma_a_push(pre.owner_index@, e);
                    assert(pre.owner_ids(owner) =~= Seq::<u64>::empty());
                    assert(self.owner_ids(owner) =~= pre.owner_ids(owner).push(id));
                    lemma_ids_push(pre.owner_ids(owner), id);
                    assert forall|a: AccountId| a != owner
                        implies #[trigger] self.owner_ids(a) == pre.owner_ids(a) by {}
                    assert forall|a: AccountId| ids_unique(#[trigger] self.owner_ids(a)) by {
                        if a != owner {
                            assert(self.owner_ids(a) == pre.owner_ids(a));
                        }
                    }
                }
            },
        }
    }

    /// Removes one counter from `owner`'s list, stably.  Touches nothing
    /// else.
    pub(crate) fn remove_owner_id(&mut self, owner: AccountId, id: u64)
        requires
            a_unique(old(self).owner_index@),
            forall|a: AccountId| ids_unique(#[trigger] old(self).owner_ids(a)),
            old(self).owner_ids(owner).contains(id),
        ensures
            a_unique(final(self).owner_index@),
            forall|a: AccountId| ids_unique(#[trigger] final(self).owner_ids(a)),
            final(self).owner_ids(owner) == old(self).owner_ids(owner).remove(
                ids_at(old(self).owner_ids(owner), id),
            ),
            !final(self).owner_ids(owner).contains(id),
            forall|y: u64|
                y != id ==> final(self).owner_ids(owner).contains(y) == old(self).owner_ids(
                    owner,
                ).contains(y),
            owner_ids_except(*old(self), *final(self), owner),
            final(self).balances@ == old(self).balances@,
            final(self).orders@ == old(self).orders@,
            final(self).pair_index@ == old(self).pair_index@,
            final(self).next_counter == old(self).next_counter,
            final(self).events@ == old(self).events@,
    {
        let ghost pre = *self;
        let j = match self.find_owner_entry(owner) {
            Some(j) => j,
            None => {
                proof {
                    assert(false);
                }
                vstd::pervasive::unreached()
            },
        };
        proof {
            lemma_a_at(pre.owner_index@, owner, j as int);
        }
        let p = match find_id_pos(&self.owner_index[j].val, id) {
            Some(p) => p,
            None => {
                proof {
                    assert(false);
                }
                vstd::pervasive::unreached()
            },
        };
        let _removed = self.owner_index[j].val.remove(p);
        proof {
            lemma_ids_at(pre.owner_ids(owner), id, p as int);
            let e2 = self.owner_index@[j as int];
            assert(self.owner_index@ == pre.owner_index@.update(j as int, e2));
            assert(e2.key == owner);
            assert(e2.val@ == pre.owner_ids(owner).remove(p as int));
            lemma_a_update(pre.owner_index@, j as int, e2);
            lemma_ids_remove(pre.owner_ids(owner), p as int);
            assert(self.owner_ids(owner) == pre.owner_ids(owner).remove(p as int));
            assert forall|a: AccountId| a != owner implies #[trigger] self.owner_ids(a)
                == pre.owner_ids(a) by {}
            assert forall|a: AccountId| ids_unique(#[trigger] self.owner_ids(a)) by {
                if a != owner {
                    assert(self.owner_ids(a) == pre.owner_ids(a));
                }
            }
        }
    }
}

} // verus!
