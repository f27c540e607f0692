//! Read paths over the engine: token listings, order listings per pair and
//! per owner, and position-based pagination.  All absence signaling is
//! explicit (`Option` or `IndexOutOfRange`); defaulting, if a host wants it,
//! is the host's own post-processing.

use vstd::prelude::*;
use crate::types::{AccountId, AssetId, DexError, WrapperOrder};
use crate::engine::Subcosdex;
use crate::model::{a_at, a_has, lemma_a_at, lemma_ord_at, Assoc};

verus! {

/// The assets in which `owner` holds a positive balance, in ledger order.
pub open spec fn owner_assets(
    entries: Seq<Assoc<(AccountId, AssetId), u128>>,
    owner: AccountId,
) -> Seq<AssetId>
    decreases entries.len(),
{
    if entries.len() == 0 {
        Seq::empty()
    } else {
        let rest = owner_assets(entries.drop_last(), owner);
        let e = entries.last();
        if e.key.0 == owner && e.val > 0 {
            rest.push(e.key.1)
        } else {
            rest
        }
    }
}

/// The distinct assets some account holds a positive balance in, in order of
/// first appearance in the ledger.
pub open spec fn active_assets(entries: Seq<Assoc<(AccountId, AssetId), u128>>) -> Seq<AssetId>
    decreases entries.len(),
{
    if entries.len() == 0 {
        Seq::empty()
    } else {
        let rest = active_assets(entries.drop_last());
        let e = entries.last();
        if e.val > 0 && !rest.contains(e.key.1) {
            rest.push(e.key.1)
        } else {
            rest
        }
    }
}

/// An asset is listed for `owner` exactly when some ledger entry gives
/// `owner` a positive balance of it.
pub proof fn lemma_owner_assets_membership(
    entries: Seq<Assoc<(AccountId, AssetId), u128>>,
    owner: AccountId,
)
    ensures
        forall|x: AssetId|
            #[trigger] owner_assets(entries, owner).contains(x) == (exists|i: int|
                0 <= i < entries.len() && (#[trigger] entries[i]).key == (owner, x)
                    && entries[i].val > 0),
    decreases entries.len(),
{
    if entries.len() == 0 {
    } else {
        let prefix = entries.drop_last();
        let e = entries.last();
        let rest = owner_assets(prefix, owner);
        let s = owner_assets(entries, owner);
        lemma_owner_assets_membership(prefix, owner);
        assert forall|x: AssetId| #[trigger] s.contains(x) == (exists|i: int|
            0 <= i < entries.len() && (#[trigger] entries[i]).key == (owner, x)
                && entries[i].val > 0) by {
            if s.contains(x) {
                let k = choose|k: int| 0 <= k < s.len() && s[k] == x;
                if e.key.0 == owner && e.val > 0 && k == rest.len() {
                    assert(entries[entries.len() - 1].key == (owner, x));
                } else {
                    assert(rest[k] == x);
                    assert(rest.contains(x));
                    let i = choose|i: int|
                        0 <= i < prefix.len() && (#[trigger] prefix[i]).key == (owner, x)
                            && prefix[i].val > 0;
                    assert(entries[i].key == (owner, x) && entries[i].val > 0);
                }
            }
            if exists|i: int|
                0 <= i < entries.len() && (#[trigger] entries[i]).key == (owner, x)
                    && entries[i].val > 0 {
                let i = choose|i: int|
                    0 <= i < entries.len() && (#[trigger] entries[i]).key == (owner, x)
                        && entries[i].val > 0;
                if i == entries.len() - 1 {
                    assert(e.key == (owner, x) && e.val > 0);
                    assert(s[rest.len() as int] == x);
                    assert(s.contains(x));
                } else {
                    assert(prefix[i].key == (owner, x) && prefix[i].val > 0);
                    assert(rest.contains(x));
                    let k = choose|k: int| 0 <= k < rest.len() && rest[k] == x;
                    assert(s[k] == x);
                    assert(s.contains(x));
                }
            }
        }
    }
}

/// An asset is listed as active exactly when some ledger entry gives some
/// account a positive balance of it.
pub proof fn lemma_active_assets_membership(entries: Seq<Assoc<(AccountId, AssetId), u128>>)
    ensures
        forall|x: AssetId|
            #[trigger] active_assets(entries).contains(x) == (exists|i: int|
                0 <= i < entries.len() && (#[trigger] entries[i]).key.1 == x && entries[i].val
                    > 0),
    decreases entries.len(),
{
    if entries.len() == 0 {
    } else {
        let prefix = entries.drop_last();
        let e = entries.last();
        let rest = active_assets(prefix);
        let s = active_assets(entries);
        lemma_active_assets_membership(prefix);
        assert forall|x: AssetId| #[trigger] s.contains(x) == (exists|i: int|
            0 <= i < entries.len() && (#[trigger] entries[i]).key.1 == x && entries[i].val
                > 0) by {
            if s.contains(x) {
                let k = choose|k: int| 0 <= k < s.len() && s[k] == x;
                if e.val > 0 && !rest.contains(e.key.1) && k == rest.len() {
                    assert(entries[entries.len() - 1].key.1 == x);
                } else {
                    assert(rest[k] == x);
                    assert(rest.contains(x));
                    let i = choose|i: int|
                        0 <= i < prefix.len() && (#[trigger] prefix[i]).key.1 == x
                            && prefix[i].val > 0;
                    assert(entries[i].key.1 == x && entries[i].val > 0);
                }
            }
            if exists|i: int|
                0 <= i < entries.len() && (#[trigger] entries[i]).key.1 == x && entries[i].val
                    > 0 {
                let i = choose|i: int|
                    0 <= i < entries.len() && (#[trigger] entries[i]).key.1 == x
                        && entries[i].val > 0;
                if i == entries.len() - 1 {
                    if rest.contains(x) {
                        let k = choose|k: int| 0 <= k < rest.len() && rest[k] == x;
                        assert(s[k] == x);
                    } else {
                        assert(s[rest.len() as int] == x);
                    }
                    assert(s.contains(x));
                } else {
                    assert(prefix[i].key.1 == x && prefix[i].val > 0);
                    assert(rest.contains(x));
                    let k = choose|k: int| 0 <= k < rest.len() && rest[k] == x;
                    assert(s[k] == x);
                    assert(s.contains(x));
                }
            }
        }
    }
}

/// Whether a list of assets already mentions `x`.
fn vec_has_asset(v: &Vec<AssetId>, x: AssetId) -> (r: bool)
    ensures
        r == v@.contains(x),
{
    let mut i: usize = 0;
    while i < v.len()
        invariant
            i <= v@.len(),
            forall|k: int| 0 <= k < i ==> v@[k] != x,
        decreases v@.len() - i,
    {
        if v[i] == x {
            return true;
        }
        i = i + 1;
    }
    false
}

impl Subcosdex {
    /// The distinct assets held with a positive balance by any account, in
    /// order of first appearance in the ledger.
    pub fn tokens(&self) -> (r: Vec<AssetId>)
        requires
            self.balances_ok(),
        ensures
            r@ == active_assets(self.balances@),
            forall|x: AssetId|
                #[trigger] r@.contains(x) == (exists|a: AccountId|
                    self.spec_balance(a, x) > 0),
    {
        let mut r: Vec<AssetId> = Vec::new();
        let mut i: usize = 0;
        while i < self.balances.len()
            invariant
                i <= self.balances@.len(),
                r@ == active_assets(self.balances@.take(i as int)),
            decreases self.balances@.len() - i,
        {
            let e = &self.balances[i];
            let ghost prefix = self.balances@.take(i as int);
            if e.val > 0 {
                if !vec_has_asset(&r, e.key.1) {
                    r.push(e.key.1);
                }
            }
            i = i + 1;
            proof {
                assert(self.balances@.take(i as int).drop_last() =~= prefix);
                assert(self.balances@.take(i as int).last() == self.balances@[i - 1]);
            }
        }
        proof {
            assert(self.balances@.take(self.balances@.len() as int) =~= self.balances@);
            lemma_active_assets_membership(self.balances@);
            assert forall|x: AssetId| #[trigger] r@.contains(x) == (exists|a: AccountId|
                self.spec_balance(a, x) > 0) by {
                if r@.contains(x) {
                    let i = choose|i: int|
                        0 <= i < self.balances@.len() && (#[trigger] self.balances@[i]).key.1
                            == x && self.balances@[i].val > 0;
                    let a = self.balances@[i].key.0;
                    lemma_a_at(self.balances@, (a, x), i);
                    assert(self.spec_balance(a, x) > 0);
                }
                if exists|a: AccountId| self.spec_balance(a, x) > 0 {
                    let a = choose|a: AccountId| self.spec_balance(a, x) > 0;
                    let i = a_at(self.balances@, (a, x));
                    assert(a_has(self.balances@, (a, x)));
                    assert(0 <= i < self.balances@.len() && self.balances@[i].key == (a, x));
                    assert(self.balances@[i].val > 0);
                }
            }
        }
        r
    }

    /// The assets in which `owner` holds a positive balance, in ledger
    /// order.
    pub fn owners_tokens(&self, owner: AccountId) -> (r: Vec<AssetId>)
        requires
            self.balances_ok(),
        ensures
            r@ == owner_assets(self.balances@, owner),
            forall|x: AssetId| #[trigger] r@.contains(x) == (self.spec_balance(owner, x) > 0),
    {
        let mut r: Vec<AssetId> = Vec::new();
        let mut i: usize = 0;
        while i < self.balances.len()
            invariant
                i <= self.balances@.len(),
                r@ == owner_assets(self.balances@.take(i as int), owner),
            decreases self.balances@.len() - i,
        {
            let e = &self.balances[i];
            let ghost prefix = self.balances@.take(i as int);
            if e.key.0 == owner && e.val > 0 {
                r.push(e.key.1);
            }
            i = i + 1;
            proof {
                assert(self.balances@.take(i as int).drop_last() =~= prefix);
                assert(self.balances@.take(i as int).last() == self.balances@[i - 1]);
            }
        }
        proof {
            assert(self.balances@.take(self.balances@.len() as int) =~= self.balances@);
            lemma_owner_assets_membership(self.balances@, owner);
            assert forall|x: AssetId| #[trigger] r@.contains(x) == (self.spec_balance(owner, x)
                > 0) by {
                if r@.contains(x) {
                    let i = choose|i: int|
                        0 <= i < self.balances@.len() && (#[trigger] self.balances@[i]).key == (
                            owner,
                            x,
                        ) && self.balances@[i].val > 0;
                    lemma_a_at(self.balances@, (owner, x), i);
                    assert(self.spec_balance(owner, x) > 0);
                }
                if self.spec_balance(owner, x) > 0 {
                    let i = a_at(self.balances@, (owner, x));
                    assert(a_has(self.balances@, (owner, x)));
                    assert(0 <= i < self.balances@.len() && self.balances@[i].key == (owner, x));
                    assert(self.balances@[i].val > 0);
                }
            }
        }
        r
    }

    /// The `index`-th asset of `owner`'s positive-balance listing, or
    /// `IndexOutOfRange` when the index lies beyond it.
    pub fn owner_token_by_index(&self, owner: AccountId, index: u64) -> (r: Result<
        AssetId,
        DexError,
    >)
        requires
            self.balances_ok(),
        ensures
            index < owner_assets(self.balances@, owner).len() ==> r == Ok::<AssetId, DexError>(
                owner_assets(self.balances@, owner)[index as int],
            ),
            index >= owner_assets(self.balances@, owner).len() ==> r == Err::<AssetId, DexError>(
                DexError::IndexOutOfRange,
            ),
    {
        let toks = self.owners_tokens(owner);
        if index < toks.len() as u64 {
            Ok(toks[index as usize])
        } else {
            Err(DexError::IndexOutOfRange)
        }
    }

    /// All live orders of pair `(asset_id_1, asset_id_2)`, in index order.
    pub fn pair_orders(&self, asset_id_1: AssetId, asset_id_2: AssetId) -> (r: Vec<WrapperOrder>)
        requires
            self.wf(),
        ensures
            r@.len() == self.pair_ids(asset_id_1, asset_id_2).len(),
            forall|k: int|
                0 <= k < r@.len() ==> #[trigger] r@[k] == self.spec_order(
                    self.pair_ids(asset_id_1, asset_id_2)[k],
                ),
    {
        let mut r: Vec<WrapperOrder> = Vec::new();
        let j = match self.find_pair_entry(asset_id_1, asset_id_2) {
            Some(j) => j,
            None => {
                return r;
            },
        };
        proof {
            lemma_a_at(self.pair_index@, (asset_id_1, asset_id_2), j as int);
        }
        let n = self.pair_index[j].val.len();
        let mut i: usize = 0;
        while i < n
            invariant
                self.wf(),
                i <= n,
                j < self.pair_index@.len(),
                self.pair_index@[j as int].key == (asset_id_1, asset_id_2),
                n == self.pair_ids(asset_id_1, asset_id_2).len(),
                self.pair_ids(asset_id_1, asset_id_2) == self.pair_index@[j as int].val@,
                r@.len() == i,
                forall|k: int|
                    0 <= k < i ==> #[trigger] r@[k] == self.spec_order(
                        self.pair_ids(asset_id_1, asset_id_2)[k],
                    ),
            decreases n - i,
        {
            let id = self.pair_index[j].val[i];
            match self.find_order_pos(id) {
                Some(p) => {
                    let o = self.orders[p];
                    proof {
                        lemma_ord_at(self.orders@, id, p as int);
                    }
                    r.push(o);
                },
                None => {
                    proof {
                        assert(self.pair_ids(asset_id_1, asset_id_2)[i as int] == id);
                        assert(false);
                    }
                },
            }
            i = i + 1;
        }
        r
    }

    /// All live orders owned by `owner`, in index order.
    pub fn user_orders(&self, owner: AccountId) -> (r: Vec<WrapperOrder>)
        requires
            self.wf(),
        ensures
            r@.len() == self.owner_ids(owner).len(),
            forall|k: int|
                0 <= k < r@.len() ==> #[trigger] r@[k] == self.spec_order(
                    self.owner_ids(owner)[k],
                ),
    {
        let mut r: Vec<WrapperOrder> = Vec::new();
        let j = match self.find_owner_entry(owner) {
            Some(j) => j,
            None => {
                return r;
            },
        };
        proof {
            lemma_a_at(self.owner_index@, owner, j as int);
        }
        let n = self.owner_index[j].val.len();
        let mut i: usize = 0;
        while i < n
            invariant
                self.wf(),
                i <= n,
                j < self.owner_index@.len(),
                self.owner_index@[j as int].key == owner,
                n == self.owner_ids(owner).len(),
                self.owner_ids(owner) == self.owner_index@[j as int].val@,
                r@.len() == i,
                forall|k: int|
                    0 <= k < i ==> #[trigger] r@[k] == self.spec_order(self.owner_ids(owner)[k]),
            decreases n - i,
        {
            let id = self.owner_index[j].val[i];
            match self.find_order_pos(id) {
                Some(p) => {
                    let o = self.orders[p];
                    proof {
                        lemma_ord_at(self.orders@, id, p as int);
                    }
                    r.push(o);
                },
                None => {
                    proof {
                        assert(self.owner_ids(owner)[i as int] == id);
                        assert(false);
                    }
                },
            }
            i = i + 1;
        }
        r
    }

    /// The `index`-th live order of a pair, 0-based over the current live
    /// count, or `IndexOutOfRange` beyond it.  Positions are not stable
    /// across mutations: removal compacts the list (stably, preserving the
    /// order of the remaining entries).
    pub fn pair_order_by_index(
        &self,
        asset_id_1: AssetId,
        asset_id_2: AssetId,
        index: u64,
    ) -> (r: Result<WrapperOrder, DexError>)
        requires
            self.wf(),
        ensures
            index < self.pair_ids(asset_id_1, asset_id_2).len() ==> r == Ok::<
                WrapperOrder,
                DexError,
            >(self.spec_order(self.pair_ids(asset_id_1, asset_id_2)[index as int])),
            index >= self.pair_ids(asset_id_1, asset_id_2).len() ==> r == Err::<
                WrapperOrder,
                DexError,
            >(DexError::IndexOutOfRange),
    {
        let j = match self.find_pair_entry(asset_id_1, asset_id_2) {
            Some(j) => j,
            None => {
                return Err(DexError::IndexOutOfRange);
            },
        };
        proof {
            lemma_a_at(self.pair_index@, (asset_id_1, asset_id_2), j as int);
        }
        if index >= self.pair_index[j].val.len() as u64 {
            return Err(DexError::IndexOutOfRange);
        }
        let id = self.pair_index[j].val[index as usize];
        proof {
            assert(self.pair_ids(asset_id_1, asset_id_2)[index as int] == id);
        }
        match self.find_order_pos(id) {
            Some(p) => {
                let o = self.orders[p];
                proof {
                    lemma_ord_at(self.orders@, id, p as int);
                }
                Ok(o)
            },
            None => {
                proof {
                    assert(false);
                }
                vstd::pervasive::unreached()
            },
        }
    }

    /// The `index`-th live order of `owner`, 0-based over the current live
    /// count, or `IndexOutOfRange` beyond it.  Positions are not stable
    /// across mutations: removal compacts the list (stably, preserving the
    /// order of the remaining entries).
    pub fn user_order_by_index(&self, owner: AccountId, index: u64) -> (r: Result<
        WrapperOrder,
        DexError,
    >)
        requires
            self.wf(),
        ensures
            index < self.owner_ids(owner).len() ==> r == Ok::<WrapperOrder, DexError>(
                self.spec_order(self.owner_ids(owner)[index as int]),
            ),
            index >= self.owner_ids(owner).len() ==> r == Err::<WrapperOrder, DexError>(
                DexError::IndexOutOfRange,
            ),
    {
        let j = match self.find_owner_entry(owner) {
            Some(j) => j,
            None => {
                return Err(DexError::IndexOutOfRange);
            },
        };
        proof {
            lemma_a_at(self.owner_index@, owner, j as int);
        }
        if index >= self.owner_index[j].val.len() as u64 {
            return Err(DexError::IndexOutOfRange);
        }
        let id = self.owner_index[j].val[index as usize];
        proof {
            assert(self.owner_ids(owner)[index as int] == id);
        }
        match self.find_order_pos(id) {
            Some(p) => {
                let o = self.orders[p];
                proof {
                    lemma_ord_at(self.orders@, id, p as int);
                }
                Ok(o)
            },
            None => {
                proof {
                    assert(false);
                }
                vstd::pervasive::unreached()
            },
        }
    }
}

} // verus!
