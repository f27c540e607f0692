//! The engine state: balance ledger, order store, both indexes, the order
//! counter and the event log, together with the asset-ledger operations.

use vstd::prelude::*;
use crate::types::{AccountId, AssetId, DexError, Deposit, Event, Withdraw, WrapperOrder};
use crate::model::{
    a_elem, a_has, a_unique, ids_unique, lemma_a_at, lemma_a_push, lemma_a_update, ord_has,
    ord_of, ord_unique, Assoc,
};

verus! {

/// The order-book custody-and-matching engine.
///
/// One instance owns all shared state: per-account per-asset balances, the
/// live orders in insertion order, the by-pair and by-owner indexes, the next
/// order counter and the event log.  The host invokes its operations one at a
/// time, each running to completion; every operation either commits all its
/// effects or none.
pub struct Subcosdex {
    /// Per-(account, asset) balances.  An absent entry is a zero balance.
    pub balances: Vec<Assoc<(AccountId, AssetId), u128>>,
    /// Live orders, in insertion order.  A canceled or taken order is removed
    /// and its counter is never reassigned.
    pub orders: Vec<WrapperOrder>,
    /// For each trading pair, the counters of its live orders, in insertion
    /// order (removal is stable: remaining positions keep their order).
    pub pair_index: Vec<Assoc<(AssetId, AssetId), Vec<u64>>>,
    /// For each owner, the counters of their live orders, in insertion order.
    pub owner_index: Vec<Assoc<AccountId, Vec<u64>>>,
    /// The counter the next created order will receive.
    pub next_counter: u64,
    /// Structured notifications, one per successful mutating call.
    pub events: Vec<Event>,
}

impl Subcosdex {
    /// The balance of `account` in `asset`; zero when no entry exists.
    pub open spec fn spec_balance(&self, account: AccountId, asset: AssetId) -> u128 {
        if a_has(self.balances@, (account, asset)) {
            a_elem(self.balances@, (account, asset)).val
        } else {
            0
        }
    }

    /// A live order with counter `id` exists.
    pub open spec fn has_order_id(&self, id: u64) -> bool {
        ord_has(self.orders@, id)
    }

    /// The live order with counter `id`.
    pub open spec fn spec_order(&self, id: u64) -> WrapperOrder {
        ord_of(self.orders@, id)
    }

    /// The counters of the live orders of pair `(a1, a2)`, in index order.
    pub open spec fn pair_ids(&self, a1: AssetId, a2: AssetId) -> Seq<u64> {
        if a_has(self.pair_index@, (a1, a2)) {
            a_elem(self.pair_index@, (a1, a2)).val@
        } else {
            Seq::empty()
        }
    }

    /// The counters of the live orders owned by `owner`, in index order.
    pub open spec fn owner_ids(&self, owner: AccountId) -> Seq<u64> {
        if a_has(self.owner_index@, owner) {
            a_elem(self.owner_index@, owner).val@
        } else {
            Seq::empty()
        }
    }

    /// The ledger holds at most one entry per (account, asset) key.
    pub open spec fn balances_ok(&self) -> bool {
        a_unique(self.balances@)
    }

    /// Order counters are distinct, below the next counter, and every order
    /// carries positive amounts.
    pub open spec fn orders_ok(&self) -> bool {
        &&& ord_unique(self.orders@)
        &&& forall|j: int|
            0 <= j < self.orders@.len() ==> {
                let o = #[trigger] self.orders@[j];
                o.counter < self.next_counter && o.amount_offered > 0 && o.amount_requested > 0
            }
    }

    /// The by-pair index lists exactly the live orders of each pair: every
    /// listed counter belongs to a live order of that pair, every live order
    /// is listed under its pair, and no list repeats a counter.
    pub open spec fn pair_index_ok(&self) -> bool {
        &&& a_unique(self.pair_index@)
        &&& forall|b1: AssetId, b2: AssetId| ids_unique(#[trigger] self.pair_ids(b1, b2))
        &&& forall|b1: AssetId, b2: AssetId, k: int|
            0 <= k < self.pair_ids(b1, b2).len() ==> {
                let id = #[trigger] self.pair_ids(b1, b2)[k];
                ord_has(self.orders@, id) && ord_of(self.orders@, id).pair == (b1, b2)
            }
        &&& forall|j: int|
            0 <= j < self.orders@.len() ==> {
                let o = #[trigger] self.orders@[j];
                self.pair_ids(o.pair.0, o.pair.1).contains(o.counter)
            }
    }

    /// The by-owner index lists exactly the live orders of each owner.
    pub open spec fn owner_index_ok(&self) -> bool {
        &&& a_unique(self.owner_index@)
        &&& forall|a: AccountId| ids_unique(#[trigger] self.owner_ids(a))
        &&& forall|a: AccountId, k: int|
            0 <= k < self.owner_ids(a).len() ==> {
                let id = #[trigger] self.owner_ids(a)[k];
                ord_has(self.orders@, id) && ord_of(self.orders@, id).address == a
            }
        &&& forall|j: int|
            0 <= j < self.orders@.len() ==> {
                let o = #[trigger] self.orders@[j];
                self.owner_ids(o.address).contains(o.counter)
            }
    }

    /// Well-formedness of the whole engine state.  `new` establishes it and
    /// every operation preserves it.
    pub open spec fn wf(&self) -> bool {
        &&& self.balances_ok()
        &&& self.orders_ok()
        &&& self.pair_index_ok()
        &&& self.owner_index_ok()
    }

    /// Two states with the same index and order fields have the same derived
    /// views, and well-formedness carries over when only the ledger changed
    /// (and stayed uniquely keyed).
    pub proof fn lemma_wf_after_ledger_change(pre: Self, post: Self)
        requires
            pre.wf(),
            post.balances_ok(),
            post.orders@ == pre.orders@,
            post.pair_index@ == pre.pair_index@,
            post.owner_index@ == pre.owner_index@,
            post.next_counter == pre.next_counter,
        ensures
            post.wf(),
    {
        assert forall|b1: AssetId, b2: AssetId| #[trigger] post.pair_ids(b1, b2) == pre.pair_ids(
            b1,
            b2,
        ) by {}
        assert forall|a: AccountId| #[trigger] post.owner_ids(a) == pre.owner_ids(a) by {}
    }

    /// Balances derived from equal ledgers are equal.
    pub proof fn lemma_same_balances(pre: Self, post: Self)
        requires
            post.balances@ == pre.balances@,
        ensures
            forall|a: AccountId, x: AssetId| #[trigger] post.spec_balance(a, x)
                == pre.spec_balance(a, x),
    {
        assert forall|a: AccountId, x: AssetId| #[trigger] post.spec_balance(a, x)
            == pre.spec_balance(a, x) by {}
    }

    /// Pair lists derived from equal pair indexes are equal.
    pub proof fn lemma_same_pair_index(pre: Self, post: Self)
        requires
            post.pair_index@ == pre.pair_index@,
        ensures
            forall|b1: AssetId, b2: AssetId| #[trigger] post.pair_ids(b1, b2) == pre.pair_ids(
                b1,
                b2,
            ),
    {
        assert forall|b1: AssetId, b2: AssetId| #[trigger] post.pair_ids(b1, b2) == pre.pair_ids(
            b1,
            b2,
        ) by {}
    }

    /// Owner lists derived from equal owner indexes are equal.
    pub proof fn lemma_same_owner_index(pre: Self, post: Self)
        requires
            post.owner_index@ == pre.owner_index@,
        ensures
            forall|a: AccountId| #[trigger] post.owner_ids(a) == pre.owner_ids(a),
    {
        assert forall|a: AccountId| #[trigger] post.owner_ids(a) == pre.owner_ids(a) by {}
    }

    /// A fresh engine: no balances, no orders, empty indexes, no events, and
    /// the order counter at zero.
    pub fn new() -> (s: Self)
        ensures
            s.wf(),
            s.balances@ =~= Seq::<Assoc<(AccountId, AssetId), u128>>::empty(),
            s.orders@ =~= Seq::<WrapperOrder>::empty(),
            s.pair_index@ =~= Seq::<Assoc<(AssetId, AssetId), Vec<u64>>>::empty(),
            s.owner_index@ =~= Seq::<Assoc<AccountId, Vec<u64>>>::empty(),
            s.next_counter == 0,
            s.events@ =~= Seq::<Event>::empty(),
            forall|a: AccountId, x: AssetId| s.spec_balance(a, x) == 0,
            forall|id: u64| !s.has_order_id(id),
            forall|b1: AssetId, b2: AssetId| s.pair_ids(b1, b2) =~= Seq::<u64>::empty(),
            forall|a: AccountId| s.owner_ids(a) =~= Seq::<u64>::empty(),
    {
        Subcosdex {
            balances: Vec::new(),
            orders: Vec::new(),
            pair_index: Vec::new(),
            owner_index: Vec::new(),
            next_counter: 0,
            events: Vec::new(),
        }
    }

    /// The position of the ledger entry for `(account, asset)`, if any.
    pub(crate) fn find_balance(&self, account: AccountId, asset: AssetId) -> (r: Option<usize>)
        ensures
            match r {
                Some(j) => j < self.balances@.len() && self.balances@[j as int].key == (
                    account,
                    asset,
                ),
                None => !a_has(self.balances@, (account, asset)),
            },
    {
        let mut i: usize = 0;
        while i < self.balances.len()
            invariant
                i <= self.balances@.len(),
                forall|k: int|
                    0 <= k < i ==> (#[trigger] self.balances@[k]).key != (account, asset),
            decreases self.balances@.len() - i,
        {
            let e = &self.balances[i];
            if e.key.0 == account && e.key.1 == asset {
                return Some(i);
            }
            i = i + 1;
        }
        None
    }

    /// The balance of `account` in `asset`.  A pure read: an unknown account
    /// or asset is a valid zero balance, not an error.
    pub fn balance_of(&self, account: AccountId, asset: AssetId) -> (r: u128)
        requires
            self.balances_ok(),
        ensures
            r == self.spec_balance(account, asset),
    {
        match self.find_balance(account, asset) {
            Some(j) => {
                let v = self.balances[j].val;
                proof {
                    lemma_a_at(self.balances@, (account, asset), j as int);
                }
                v
            },
            None => 0,
        }
    }

    /// Adds `amount` to one balance; internal primitive shared by deposits,
    /// cancellation refunds and settlement credits.  Emits no event.
    pub(crate) fn credit(&mut self, account: AccountId, asset: AssetId, amount: u128) -> (b:
        u128)
        requires
            old(self).wf(),
            amount > 0,
            old(self).spec_balance(account, asset) + amount <= u128::MAX,
        ensures
            final(self).wf(),
            b == old(self).spec_balance(account, asset) + amount,
            final(self).spec_balance(account, asset) == b,
            balances_except(*old(self), *final(self), account, asset),
            final(self).orders@ == old(self).orders@,
            final(self).pair_index@ == old(self).pair_index@,
            final(self).owner_index@ == old(self).owner_index@,
            final(self).next_counter == old(self).next_counter,
            final(self).events@ == old(self).events@,
    {
        let ghost pre = *self;
        match self.find_balance(account, asset) {
            Some(j) => {
                proof {
                    lemma_a_at(self.balances@, (account, asset), j as int);
                }
                let cur = self.balances[j].val;
                let nb = cur + amount;
                self.balances[j] = Assoc { key: (account, asset), val: nb };
                proof {
                    lemma_a_update(
                        pre.balances@,
                        j as int,
                        Assoc { key: (account, asset), val: nb },
                    );
                    assert(balances_except(pre, *self, account, asset));
                    Self::lemma_wf_after_ledger_change(pre, *self);
                }
                nb
            },
            None => {
                self.balances.push(Assoc { key: (account, asset), val: amount });
                proof {
                    lemma_a_push(pre.balances@, Assoc { key: (account, asset), val: amount });
                    assert(balances_except(pre, *self, account, asset));
                    Self::lemma_wf_after_ledger_change(pre, *self);
                }
                amount
            },
        }
    }

    /// Removes `amount` from one balance that covers it; internal primitive
    /// shared by withdrawals, order escrow and settlement debits.
    pub(crate) fn debit(&mut self, account: AccountId, asset: AssetId, amount: u128) -> (b:
        u128)
        requires
            old(self).wf(),
            amount > 0,
            old(self).spec_balance(account, asset) >= amount,
        ensures
            final(self).wf(),
            b == old(self).spec_balance(account, asset) - amount,
            final(self).spec_balance(account, asset) == b,
            balances_except(*old(self), *final(self), account, asset),
            final(self).orders@ == old(self).orders@,
            final(self).pair_index@ == old(self).pair_index@,
            final(self).owner_index@ == old(self).owner_index@,
            final(self).next_counter == old(self).next_counter,
            final(self).events@ == old(self).events@,
    {
        let ghost pre = *self;
        match self.find_balance(account, asset) {
            Some(j) => {
                proof {
                    lemma_a_at(self.balances@, (account, asset), j as int);
                }
                let cur = self.balances[j].val;
                let nb = cur - amount;
                self.balances[j] = Assoc { key: (account, asset), val: nb };
                proof {
                    lemma_a_update(
                        pre.balances@,
                        j as int,
                        Assoc { key: (account, asset), val: nb },
                    );
                    assert(balances_except(pre, *self, account, asset));
                    Self::lemma_wf_after_ledger_change(pre, *self);
                }
                nb
            },
            None => {
                proof {
                    assert(false);
                }
                vstd::pervasive::unreached()
            },
        }
    }

    /// Increases `account`'s balance of `asset_id` by `amount`.  A zero
    /// amount is rejected with `InvalidAmount`; otherwise the deposit always
    /// succeeds, returns the new balance, and appends one `Deposit` event.
    pub fn deposit(&mut self, account: AccountId, asset_id: AssetId, amount: u128) -> (r:
        Result<u128, DexError>)
        requires
            old(self).wf(),
            old(self).spec_balance(account, asset_id) + amount <= u128::MAX,
        ensures
            final(self).wf(),
            amount == 0 ==> r == Err::<u128, DexError>(DexError::InvalidAmount) && *final(self)
                == *old(self),
            amount > 0 ==> r == Ok::<u128, DexError>(
                (old(self).spec_balance(account, asset_id) + amount) as u128,
            ) && deposit_ok(*old(self), *final(self), account, asset_id, amount),
    {
        if amount == 0 {
            return Err(DexError::InvalidAmount);
        }
        let b = self.credit(account, asset_id, amount);
        let ghost mid = *self;
        self.events.push(Event::Deposit(Deposit { asset_id, amount }));
        proof {
            Self::lemma_wf_after_ledger_change(mid, *self);
            Self::lemma_same_balances(mid, *self);
        }
        Ok(b)
    }

    /// Decreases `account`'s balance of `asset_id` by `amount`.  Fails with
    /// `InvalidAmount` on a zero amount and with `InsufficientBalance` when
    /// the balance cannot cover it, changing nothing in either case; on
    /// success it returns the new balance and appends one `Withdraw` event.
    pub fn withdraw(&mut self, account: AccountId, asset_id: AssetId, amount: u128) -> (r:
        Result<u128, DexError>)
        requires
            old(self).wf(),
        ensures
            final(self).wf(),
            amount == 0 ==> r == Err::<u128, DexError>(DexError::InvalidAmount) && *final(self)
                == *old(self),
            amount > 0 && old(self).spec_balance(account, asset_id) < amount ==> r == Err::<
                u128,
                DexError,
            >(DexError::InsufficientBalance) && *final(self) == *old(self),
            amount > 0 && old(self).spec_balance(account, asset_id) >= amount ==> r == Ok::<
                u128,
                DexError,
            >((old(self).spec_balance(account, asset_id) - amount) as u128) && withdraw_ok(
                *old(self),
                *final(self),
                account,
                asset_id,
                amount,
            ),
    {
        if amount == 0 {
            return Err(DexError::InvalidAmount);
        }
        let cur = self.balance_of(account, asset_id);
        if cur < amount {
            return Err(DexError::InsufficientBalance);
        }
        let b = self.debit(account, asset_id, amount);
        let ghost mid = *self;
        self.events.push(Event::Withdraw(Withdraw { asset_id, amount }));
        proof {
            Self::lemma_wf_after_ledger_change(mid, *self);
            Self::lemma_same_balances(mid, *self);
        }
        Ok(b)
    }

    /// Moves `amount` of `asset` from one account to another: the atomic
    /// combination of a withdrawal and a deposit used during settlement.
    /// Fails with `InvalidAmount` on a zero amount and `InsufficientBalance`
    /// when `from` cannot cover it, leaving both balances unchanged (no
    /// partial transfer).  Emits no event.
    pub fn transfer(&mut self, from: AccountId, to: AccountId, asset: AssetId, amount: u128) -> (r:
        Result<(), DexError>)
        requires
            old(self).wf(),
            amount > 0 && old(self).spec_balance(from, asset) >= amount && from != to ==> old(
                self,
            ).spec_balance(to, asset) + amount <= u128::MAX,
        ensures
            final(self).wf(),
            amount == 0 ==> r == Err::<(), DexError>(DexError::InvalidAmount) && *final(self)
                == *old(self),
            amount > 0 && old(self).spec_balance(from, asset) < amount ==> r == Err::<
                (),
                DexError,
            >(DexError::InsufficientBalance) && *final(self) == *old(self),
            amount > 0 && old(self).spec_balance(from, asset) >= amount ==> r == Ok::<
                (),
                DexError,
            >(()) && transfer_ok(*old(self), *final(self), from, to, asset, amount),
    {
        if amount == 0 {
            return Err(DexError::InvalidAmount);
        }
        let cur = self.balance_of(from, asset);
        if cur < amount {
            return Err(DexError::InsufficientBalance);
        }
        let ghost pre = *self;
        if from == to {
            return Ok(());
        }
        self.debit(from, asset, amount);
        self.credit(to, asset, amount);
        Ok(())
    }
}

impl Default for Subcosdex {
    /// A fresh engine, exactly as `new` builds it.
    fn default() -> (s: Self)
        ensures
            s.wf(),
            s.balances@ =~= Seq::<Assoc<(AccountId, AssetId), u128>>::empty(),
            s.orders@ =~= Seq::<WrapperOrder>::empty(),
            s.pair_index@ =~= Seq::<Assoc<(AssetId, AssetId), Vec<u64>>>::empty(),
            s.owner_index@ =~= Seq::<Assoc<AccountId, Vec<u64>>>::empty(),
            s.next_counter == 0,
            s.events@ =~= Seq::<Event>::empty(),
    {
        Subcosdex::new()
    }
}

/// Every balance other than `(account, asset)` is the same in `post` as in
/// `pre`.
pub open spec fn balances_except(
    pre: Subcosdex,
    post: Subcosdex,
    account: AccountId,
    asset: AssetId,
) -> bool {
    forall|a2: AccountId, x2: AssetId|
        !(a2 == account && x2 == asset) ==> #[trigger] post.spec_balance(a2, x2)
            == pre.spec_balance(a2, x2)
}

/// Every pair list other than `(a1, a2)`'s is the same in `post` as in `pre`.
pub open spec fn pair_ids_except(
    pre: Subcosdex,
    post: Subcosdex,
    a1: AssetId,
    a2: AssetId,
) -> bool {
    forall|b1: AssetId, b2: AssetId|
        !(b1 == a1 && b2 == a2) ==> #[trigger] post.pair_ids(b1, b2) == pre.pair_ids(b1, b2)
}

/// Every owner list other than `owner`'s is the same in `post` as in `pre`.
pub open spec fn owner_ids_except(pre: Subcosdex, post: Subcosdex, owner: AccountId) -> bool {
    forall|a: AccountId|
        a != owner ==> #[trigger] post.owner_ids(a) == pre.owner_ids(a)
}

/// What a successful deposit does: exactly one balance grows by `amount`,
/// orders, indexes and counter are untouched, and one `Deposit` event is
/// appended.
pub open spec fn deposit_ok(
    pre: Subcosdex,
    post: Subcosdex,
    account: AccountId,
    asset: AssetId,
    amount: u128,
) -> bool {
    &&& post.spec_balance(account, asset) == pre.spec_balance(account, asset) + amount
    &&& balances_except(pre, post, account, asset)
    &&& post.orders@ == pre.orders@
    &&& post.pair_index@ == pre.pair_index@
    &&& post.owner_index@ == pre.owner_index@
    &&& post.next_counter == pre.next_counter
    &&& post.events@ == pre.events@.push(Event::Deposit(Deposit { asset_id: asset, amount }))
}

/// What a successful withdrawal does: exactly one balance shrinks by
/// `amount`, everything else but the event log is untouched.
pub open spec fn withdraw_ok(
    pre: Subcosdex,
    post: Subcosdex,
    account: AccountId,
    asset: AssetId,
    amount: u128,
) -> bool {
    &&& post.spec_balance(account, asset) == pre.spec_balance(account, asset) - amount
    &&& balances_except(pre, post, account, asset)
    &&& post.orders@ == pre.orders@
    &&& post.pair_index@ == pre.pair_index@
    &&& post.owner_index@ == pre.owner_index@
    &&& post.next_counter == pre.next_counter
    &&& post.events@ == pre.events@.push(Event::Withdraw(Withdraw { asset_id: asset, amount }))
}

/// What a successful transfer does to each balance: `amount` of `asset`
/// leaves `from` and reaches `to`; stated pointwise so that a transfer to
/// oneself is a no-op.
pub open spec fn transfer_ok(
    pre: Subcosdex,
    post: Subcosdex,
    from: AccountId,
    to: AccountId,
    asset: AssetId,
    amount: u128,
) -> bool {
    &&& forall|a: AccountId, x: AssetId|
        #[trigger] post.spec_balance(a, x) == pre.spec_balance(a, x) - (
            if a == from && x == asset {
                amount as int
            } else {
                0
            }
        ) + (
            if a == to && x == asset {
                amount as int
            } else {
                0
            }
        )
    &&& post.orders@ == pre.orders@
    &&& post.pair_index@ == pre.pair_index@
    &&& post.owner_index@ == pre.owner_index@
    &&& post.next_counter == pre.next_counter
    &&& post.events@ == pre.events@
}

} // verus!
