//! Laws relating several operations, stated over the transition predicates
//! that the operations' own contracts establish and proved once and for all.

use vstd::prelude::*;
use crate::types::{AccountId, AssetId, OrderType};
use crate::engine::{balances_except, deposit_ok, withdraw_ok, Subcosdex};
use crate::matching::{cancel_ok, lemma_absent_id_not_indexed, make_ok, take_balance_delta, take_ok};
use crate::model::ord_at;

verus! {

/// Depositing `n` and then withdrawing `m <= n` of the same asset nets the
/// account's balance to its starting value plus `n - m`, and touches no
/// other balance.  (An over-withdrawal instead fails with
/// `InsufficientBalance` and changes nothing at all, by `withdraw`'s own
/// contract.)
pub proof fn lemma_deposit_withdraw_round_trip(
    s0: Subcosdex,
    s1: Subcosdex,
    s2: Subcosdex,
    account: AccountId,
    asset: AssetId,
    n: u128,
    m: u128,
)
    requires
        deposit_ok(s0, s1, account, asset, n),
        m <= n,
        withdraw_ok(s1, s2, account, asset, m),
    ensures
        s2.spec_balance(account, asset) == s0.spec_balance(account, asset) + n - m,
        balances_except(s0, s2, account, asset),
{
    assert forall|a2: AccountId, x2: AssetId| !(a2 == account && x2 == asset)
        implies #[trigger] s2.spec_balance(a2, x2) == s0.spec_balance(a2, x2) by {
        assert(s1.spec_balance(a2, x2) == s0.spec_balance(a2, x2));
    }
}

/// Creating an order and canceling it straight away, by the same owner,
/// restores the owner's balance of the offered asset exactly, touches no
/// other balance, and leaves the order's counter absent from the store and
/// from every pair and owner list.
pub proof fn lemma_make_then_cancel_round_trip(
    s0: Subcosdex,
    s1: Subcosdex,
    s2: Subcosdex,
    owner: AccountId,
    a1: AssetId,
    a2: AssetId,
    offered: u128,
    requested: u128,
    ot: OrderType,
)
    requires
        s2.wf(),
        make_ok(s0, s1, owner, a1, a2, offered, requested, ot),
        cancel_ok(s1, s2, s0.next_counter),
    ensures
        s2.spec_balance(owner, a1) == s0.spec_balance(owner, a1),
        balances_except(s0, s2, owner, a1),
        !s2.has_order_id(s0.next_counter),
        forall|b1: AssetId, b2: AssetId| !(#[trigger] s2.pair_ids(b1, b2)).contains(
            s0.next_counter,
        ),
        forall|a: AccountId| !(#[trigger] s2.owner_ids(a)).contains(s0.next_counter),
{
    let ctr = s0.next_counter;
    let o = s1.spec_order(ctr);
    assert(o.address == owner && o.pair == (a1, a2) && o.amount_offered == offered);
    assert(s1.spec_balance(owner, a1) == s0.spec_balance(owner, a1) - offered);
    assert(s2.spec_balance(owner, a1) == s1.spec_balance(owner, a1) + offered);
    assert forall|a3: AccountId, x3: AssetId| !(a3 == owner && x3 == a1)
        implies #[trigger] s2.spec_balance(a3, x3) == s0.spec_balance(a3, x3) by {
        assert(s1.spec_balance(a3, x3) == s0.spec_balance(a3, x3));
    }
    lemma_absent_id_not_indexed(s2, ctr);
}

/// Creating an order and then having a different account take it settles
/// the whole trade: relative to the starting state, the offered amount of
/// the first asset has moved from maker to taker, the requested amount of
/// the second from taker to maker, no other balance has moved, and the
/// order's counter is absent from the store and from every index list.
pub proof fn lemma_make_then_take_settles(
    s0: Subcosdex,
    s1: Subcosdex,
    s2: Subcosdex,
    owner: AccountId,
    a1: AssetId,
    a2: AssetId,
    offered: u128,
    requested: u128,
    ot: OrderType,
    taker: AccountId,
)
    requires
        s2.wf(),
        taker != owner,
        make_ok(s0, s1, owner, a1, a2, offered, requested, ot),
        take_ok(s1, s2, s0.next_counter, taker),
    ensures
        forall|acct: AccountId, x: AssetId|
            #[trigger] s2.spec_balance(acct, x) == s0.spec_balance(acct, x) - (
                if acct == owner && x == a1 {
                    offered as int
                } else {
                    0
                }
            ) + (
                if acct == taker && x == a1 {
                    offered as int
                } else {
                    0
                }
            ) - (
                if acct == taker && x == a2 {
                    requested as int
                } else {
                    0
                }
            ) + (
                if acct == owner && x == a2 {
                    requested as int
                } else {
                    0
                }
            ),
        !s2.has_order_id(s0.next_counter),
        forall|b1: AssetId, b2: AssetId| !(#[trigger] s2.pair_ids(b1, b2)).contains(
            s0.next_counter,
        ),
        forall|a: AccountId| !(#[trigger] s2.owner_ids(a)).contains(s0.next_counter),
{
    let ctr = s0.next_counter;
    let o = s1.spec_order(ctr);
    assert(o.address == owner && o.pair == (a1, a2) && o.amount_offered == offered
        && o.amount_requested == requested);
    assert forall|acct: AccountId, x: AssetId| #[trigger] s2.spec_balance(acct, x)
        == s0.spec_balance(acct, x) - (
        if acct == owner && x == a1 {
            offered as int
        } else {
            0
        }
    ) + (
        if acct == taker && x == a1 {
            offered as int
        } else {
            0
        }
    ) - (
        if acct == taker && x == a2 {
            requested as int
        } else {
            0
        }
    ) + (
        if acct == owner && x == a2 {
            requested as int
        } else {
            0
        }
    ) by {
        assert(s2.spec_balance(acct, x) == take_balance_delta(s1, o, taker, acct, x));
        if !(acct == owner && x == a1) {
            assert(s1.spec_balance(acct, x) == s0.spec_balance(acct, x));
        }
    }
    lemma_absent_id_not_indexed(s2, ctr);
}

/// Cancellation is terminal: after a successful cancel the id has no live
/// order and sits in no index list, so a repeated `cancel_order` of the same
/// id finds nothing and — by `cancel_order`'s own contract — returns
/// `NotFound` while changing nothing, never crediting the escrow twice.
pub proof fn lemma_cancel_is_idempotent(s0: Subcosdex, s1: Subcosdex, id: u64)
    requires
        s1.wf(),
        cancel_ok(s0, s1, id),
    ensures
        !s1.has_order_id(id),
        forall|b1: AssetId, b2: AssetId| !(#[trigger] s1.pair_ids(b1, b2)).contains(id),
        forall|a: AccountId| !(#[trigger] s1.owner_ids(a)).contains(id),
{
    lemma_absent_id_not_indexed(s1, id);
}

/// A counter is either live and listed — in the store, in its pair's list
/// and in its owner's list together — or absent from all three.
pub proof fn lemma_store_index_agreement(s: Subcosdex, id: u64)
    requires
        s.wf(),
    ensures
        s.has_order_id(id) ==> s.pair_ids(
            s.spec_order(id).pair.0,
            s.spec_order(id).pair.1,
        ).contains(id) && s.owner_ids(s.spec_order(id).address).contains(id),
        !s.has_order_id(id) ==> (forall|b1: AssetId, b2: AssetId|
            !(#[trigger] s.pair_ids(b1, b2)).contains(id)) && (forall|a: AccountId|
            !(#[trigger] s.owner_ids(a)).contains(id)),
{
    if s.has_order_id(id) {
        let j = ord_at(s.orders@, id);
        assert(0 <= j < s.orders@.len() && s.orders@[j].counter == id);
        crate::model::lemma_ord_at(s.orders@, id, j);
        assert(s.orders@[j] == s.spec_order(id));
        assert(s.pair_ids(s.spec_order(id).pair.0, s.spec_order(id).pair.1).contains(id));
        assert(s.owner_ids(s.spec_order(id).address).contains(id));
    } else {
        lemma_absent_id_not_indexed(s, id);
    }
}

} // verus!
