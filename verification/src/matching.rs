//! Order placement, cancellation and taking, with the lemmas that carry
//! well-formedness across an insertion into, or a removal from, the order
//! store and both indexes.

use vstd::prelude::*;
use crate::types::{
    AccountId, AssetId, DexError, Event, OrderCanceled, OrderCreated, OrderTaken, OrderType,
    WrapperOrder,
};
use crate::engine::{balances_except, owner_ids_except, pair_ids_except, Subcosdex};
use crate::model::{
    a_unique, ids_at, ids_unique, lemma_ord_at, lemma_ord_push, lemma_ord_remove, ord_at,
    ord_has, ord_of,
};

verus! {

/// The next counter is fresh: no live order carries it and no index lists it.
pub proof fn lemma_fresh_counter(s: Subcosdex)
    requires
        s.wf(),
    ensures
        !ord_has(s.orders@, s.next_counter),
        forall|b1: AssetId, b2: AssetId| !(#[trigger] s.pair_ids(b1, b2)).contains(
            s.next_counter,
        ),
        forall|a: AccountId| !(#[trigger] s.owner_ids(a)).contains(s.next_counter),
{
    let n = s.next_counter;
    if ord_has(s.orders@, n) {
        let i = ord_at(s.orders@, n);
        assert(0 <= i < s.orders@.len() && s.orders@[i].counter == n);
    }
    assert forall|b1: AssetId, b2: AssetId| !(#[trigger] s.pair_ids(b1, b2)).contains(n) by {
        if s.pair_ids(b1, b2).contains(n) {
            let k = choose|k: int|
                0 <= k < s.pair_ids(b1, b2).len() && s.pair_ids(b1, b2)[k] == n;
            assert(s.pair_ids(b1, b2)[k] == n);
            assert(ord_has(s.orders@, n));
        }
    }
    assert forall|a: AccountId| !(#[trigger] s.owner_ids(a)).contains(n) by {
        if s.owner_ids(a).contains(n) {
            let k = choose|k: int| 0 <= k < s.owner_ids(a).len() && s.owner_ids(a)[k] == n;
            assert(s.owner_ids(a)[k] == n);
            assert(ord_has(s.orders@, n));
        }
    }
}

/// An id listed anywhere in an index belongs to a live order, so an id with
/// no live order is listed nowhere.
pub proof fn lemma_absent_id_not_indexed(s: Subcosdex, id: u64)
    requires
        s.wf(),
        !s.has_order_id(id),
    ensures
        forall|b1: AssetId, b2: AssetId| !(#[trigger] s.pair_ids(b1, b2)).contains(id),
        forall|a: AccountId| !(#[trigger] s.owner_ids(a)).contains(id),
{
    assert forall|b1: AssetId, b2: AssetId| !(#[trigger] s.pair_ids(b1, b2)).contains(id) by {
        if s.pair_ids(b1, b2).contains(id) {
            let k = choose|k: int|
                0 <= k < s.pair_ids(b1, b2).len() && s.pair_ids(b1, b2)[k] == id;
            assert(s.pair_ids(b1, b2)[k] == id);
            assert(ord_has(s.orders@, id));
        }
    }
    assert forall|a: AccountId| !(#[trigger] s.owner_ids(a)).contains(id) by {
        if s.owner_ids(a).contains(id) {
            let k = choose|k: int| 0 <= k < s.owner_ids(a).len() && s.owner_ids(a)[k] == id;
            assert(s.owner_ids(a)[k] == id);
            assert(ord_has(s.orders@, id));
        }
    }
}

/// Well-formedness carries across inserting one fresh order into the store
/// and appending its counter to both indexes.
pub proof fn lemma_wf_after_insert(pre: Subcosdex, post: Subcosdex, o: WrapperOrder)
    requires
        pre.wf(),
        o.counter == pre.next_counter,
        o.amount_offered > 0,
        o.amount_requested > 0,
        post.next_counter == pre.next_counter + 1,
        post.balances_ok(),
        post.orders@ == pre.orders@.push(o),
        a_unique(post.pair_index@),
        forall|b1: AssetId, b2: AssetId| ids_unique(#[trigger] post.pair_ids(b1, b2)),
        post.pair_ids(o.pair.0, o.pair.1) == pre.pair_ids(o.pair.0, o.pair.1).push(o.counter),
        pair_ids_except(pre, post, o.pair.0, o.pair.1),
        a_unique(post.owner_index@),
        forall|a: AccountId| ids_unique(#[trigger] post.owner_ids(a)),
        post.owner_ids(o.address) == pre.owner_ids(o.address).push(o.counter),
        owner_ids_except(pre, post, o.address),
    ensures
        post.wf(),
{
    lemma_fresh_counter(pre);
    lemma_ord_push(pre.orders@, o);
    assert forall|j: int| 0 <= j < post.orders@.len() implies {
        let oj = #[trigger] post.orders@[j];
        oj.counter < post.next_counter && oj.amount_offered > 0 && oj.amount_requested > 0
    } by {
        if j < pre.orders@.len() {
            assert(post.orders@[j] == pre.orders@[j]);
        } else {
            assert(post.orders@[j] == o);
        }
    }
    assert forall|b1: AssetId, b2: AssetId, k: int|
        0 <= k < post.pair_ids(b1, b2).len() implies {
        let id = #[trigger] post.pair_ids(b1, b2)[k];
        ord_has(post.orders@, id) && ord_of(post.orders@, id).pair == (b1, b2)
    } by {
        let id = post.pair_ids(b1, b2)[k];
        if b1 == o.pair.0 && b2 == o.pair.1 {
            if k < pre.pair_ids(b1, b2).len() {
                assert(id == pre.pair_ids(b1, b2)[k]);
                assert(ord_has(pre.orders@, id) && ord_of(pre.orders@, id).pair == (b1, b2));
                let i = ord_at(pre.orders@, id);
                assert(pre.orders@[i].counter == id);
                assert(id != o.counter);
            } else {
                assert(id == o.counter);
            }
        } else {
            assert(post.pair_ids(b1, b2) == pre.pair_ids(b1, b2));
            assert(id == pre.pair_ids(b1, b2)[k]);
            assert(ord_has(pre.orders@, id) && ord_of(pre.orders@, id).pair == (b1, b2));
            let i = ord_at(pre.orders@, id);
            assert(pre.orders@[i].counter == id);
            assert(id != o.counter);
        }
    }
    assert forall|j: int| 0 <= j < post.orders@.len() implies {
        let oj = #[trigger] post.orders@[j];
        post.pair_ids(oj.pair.0, oj.pair.1).contains(oj.counter)
    } by {
        if j < pre.orders@.len() {
            let oj = pre.orders@[j];
            assert(post.orders@[j] == oj);
            assert(pre.pair_ids(oj.pair.0, oj.pair.1).contains(oj.counter));
            let k = choose|k: int|
                0 <= k < pre.pair_ids(oj.pair.0, oj.pair.1).len() && pre.pair_ids(
                    oj.pair.0,
                    oj.pair.1,
                )[k] == oj.counter;
            if oj.pair.0 == o.pair.0 && oj.pair.1 == o.pair.1 {
                assert(post.pair_ids(oj.pair.0, oj.pair.1)[k] == oj.counter);
            } else {
                assert(post.pair_ids(oj.pair.0, oj.pair.1) == pre.pair_ids(
                    oj.pair.0,
                    oj.pair.1,
                ));
            }
            assert(post.pair_ids(oj.pair.0, oj.pair.1).contains(oj.counter));
        } else {
            assert(post.orders@[j] == o);
            let n = pre.pair_ids(o.pair.0, o.pair.1).len() as int;
            assert(post.pair_ids(o.pair.0, o.pair.1)[n] == o.counter);
            assert(post.pair_ids(o.pair.0, o.pair.1).contains(o.counter));
        }
    }
    assert forall|a: AccountId, k: int| 0 <= k < post.owner_ids(a).len() implies {
        let id = #[trigger] post.owner_ids(a)[k];
        ord_has(post.orders@, id) && ord_of(post.orders@, id).address == a
    } by {
        let id = post.owner_ids(a)[k];
        if a == o.address {
            if k < pre.owner_ids(a).len() {
                assert(id == pre.owner_ids(a)[k]);
                assert(ord_has(pre.orders@, id) && ord_of(pre.orders@, id).address == a);
                let i = ord_at(pre.orders@, id);
                assert(pre.orders@[i].counter == id);
                assert(id != o.counter);
            } else {
                assert(id == o.counter);
            }
        } else {
            assert(post.owner_ids(a) == pre.owner_ids(a));
            assert(id == pre.owner_ids(a)[k]);
            assert(ord_has(pre.orders@, id) && ord_of(pre.orders@, id).address == a);
            let i = ord_at(pre.orders@, id);
            assert(pre.orders@[i].counter == id);
            assert(id != o.counter);
        }
    }
    assert forall|j: int| 0 <= j < post.orders@.len() implies {
        let oj = #[trigger] post.orders@[j];
        post.owner_ids(oj.address).contains(oj.counter)
    } by {
        if j < pre.orders@.len() {
            let oj = pre.orders@[j];
            assert(post.orders@[j] == oj);
            assert(pre.owner_ids(oj.address).contains(oj.counter));
            let k = choose|k: int|
                0 <= k < pre.owner_ids(oj.address).len() && pre.owner_ids(oj.address)[k]
                    == oj.counter;
            if oj.address == o.address {
                assert(post.owner_ids(oj.address)[k] == oj.counter);
            } else {
                assert(post.owner_ids(oj.address) == pre.owner_ids(oj.address));
            }
            assert(post.owner_ids(oj.address).contains(oj.counter));
        } else {
            assert(post.orders@[j] == o);
            let n = pre.owner_ids(o.address).len() as int;
            assert(post.owner_ids(o.address)[n] == o.counter);
            assert(post.owner_ids(o.address).contains(o.counter));
        }
    }
}

/// Well-formedness carries across removing one order from the store and its
/// counter from both indexes.
/// After a removal, the remaining orders still have distinct counters below
/// the unchanged next counter and positive amounts.
pub proof fn lemma_remove_orders_ok(pre: Subcosdex, post: Subcosdex, j: int)
    requires
        pre.wf(),
        0 <= j < pre.orders@.len(),
        post.next_counter == pre.next_counter,
        post.orders@ == pre.orders@.remove(j),
    ensures
        post.orders_ok(),
{
    lemma_ord_remove(pre.orders@, j);
    assert forall|j2: int| 0 <= j2 < post.orders@.len() implies {
        let oj = #[trigger] post.orders@[j2];
        oj.counter < post.next_counter && oj.amount_offered > 0 && oj.amount_requested > 0
    } by {
        if j2 < j {
            assert(post.orders@[j2] == pre.orders@[j2]);
        } else {
            assert(post.orders@[j2] == pre.orders@[j2 + 1]);
        }
    }
}

/// After removing one order and its counter from its pair list, the by-pair
/// index again lists exactly the live orders of each pair.
#[verifier::rlimit(100)]
pub proof fn lemma_remove_pair_index_ok(pre: Subcosdex, post: Subcosdex, j: int)
    requires
        pre.wf(),
        0 <= j < pre.orders@.len(),
        post.orders@ == pre.orders@.remove(j),
        a_unique(post.pair_index@),
        forall|b1: AssetId, b2: AssetId| ids_unique(#[trigger] post.pair_ids(b1, b2)),
        ({
            let o = pre.orders@[j];
            &&& !post.pair_ids(o.pair.0, o.pair.1).contains(o.counter)
            &&& forall|y: u64|
                y != o.counter ==> post.pair_ids(o.pair.0, o.pair.1).contains(y)
                    == pre.pair_ids(o.pair.0, o.pair.1).contains(y)
            &&& pair_ids_except(pre, post, o.pair.0, o.pair.1)
        }),
    ensures
        post.pair_index_ok(),
{
    let o = pre.orders@[j];
    lemma_ord_at(pre.orders@, o.counter, j);
    lemma_ord_remove(pre.orders@, j);
    assert forall|b1: AssetId, b2: AssetId, k: int|
        0 <= k < post.pair_ids(b1, b2).len() implies {
        let id = #[trigger] post.pair_ids(b1, b2)[k];
        ord_has(post.orders@, id) && ord_of(post.orders@, id).pair == (b1, b2)
    } by {
        let id = post.pair_ids(b1, b2)[k];
        assert(post.pair_ids(b1, b2).contains(id));
        if b1 == o.pair.0 && b2 == o.pair.1 {
            assert(id != o.counter);
            assert(pre.pair_ids(b1, b2).contains(id));
        } else {
            assert(post.pair_ids(b1, b2) == pre.pair_ids(b1, b2));
            assert(pre.pair_ids(b1, b2)[k] == id);
            if id == o.counter {
                assert(ord_of(pre.orders@, id).pair == (b1, b2));
                assert(ord_of(pre.orders@, o.counter) == o);
            }
            assert(id != o.counter);
            assert(pre.pair_ids(b1, b2).contains(id));
        }
        let k2 = choose|k2: int|
            0 <= k2 < pre.pair_ids(b1, b2).len() && pre.pair_ids(b1, b2)[k2] == id;
        assert(pre.pair_ids(b1, b2)[k2] == id);
        assert(ord_has(pre.orders@, id) && ord_of(pre.orders@, id).pair == (b1, b2));
    }
    assert forall|j2: int| 0 <= j2 < post.orders@.len() implies {
        let oj = #[trigger] post.orders@[j2];
        post.pair_ids(oj.pair.0, oj.pair.1).contains(oj.counter)
    } by {
        let oj = post.orders@[j2];
        if j2 < j {
            assert(oj == pre.orders@[j2]);
            assert(pre.orders@[j2].counter != pre.orders@[j].counter);
        } else {
            assert(oj == pre.orders@[j2 + 1]);
            assert(pre.orders@[j2 + 1].counter != pre.orders@[j].counter);
        }
        assert(pre.pair_ids(oj.pair.0, oj.pair.1).contains(oj.counter));
        assert(oj.counter != o.counter);
        if oj.pair.0 == o.pair.0 && oj.pair.1 == o.pair.1 {
            assert(post.pair_ids(oj.pair.0, oj.pair.1).contains(oj.counter));
        } else {
            assert(post.pair_ids(oj.pair.0, oj.pair.1) == pre.pair_ids(oj.pair.0, oj.pair.1));
        }
    }
}

/// After removing one order and its counter from its owner's list, the
/// by-owner index again lists exactly the live orders of each owner.
#[verifier::rlimit(100)]
pub proof fn lemma_remove_owner_index_ok(pre: Subcosdex, post: Subcosdex, j: int)
    requires
        pre.wf(),
        0 <= j < pre.orders@.len(),
        post.orders@ == pre.orders@.remove(j),
        a_unique(post.owner_index@),
        forall|a: AccountId| ids_unique(#[trigger] post.owner_ids(a)),
        ({
            let o = pre.orders@[j];
            &&& !post.owner_ids(o.address).contains(o.counter)
            &&& forall|y: u64|
                y != o.counter ==> post.owner_ids(o.address).contains(y) == pre.owner_ids(
                    o.address,
                ).contains(y)
            &&& owner_ids_except(pre, post, o.address)
        }),
    ensures
        post.owner_index_ok(),
{
    let o = pre.orders@[j];
    lemma_ord_at(pre.orders@, o.counter, j);
    lemma_ord_remove(pre.orders@, j);
    assert forall|a: AccountId, k: int| 0 <= k < post.owner_ids(a).len() implies {
        let id = #[trigger] post.owner_ids(a)[k];
        ord_has(post.orders@, id) && ord_of(post.orders@, id).address == a
    } by {
        let id = post.owner_ids(a)[k];
        assert(post.owner_ids(a).contains(id));
        if a == o.address {
            assert(id != o.counter);
            assert(pre.owner_ids(a).contains(id));
        } else {
            assert(post.owner_ids(a) == pre.owner_ids(a));
            assert(pre.owner_ids(a)[k] == id);
            if id == o.counter {
                assert(ord_of(pre.orders@, id).address == a);
                assert(ord_of(pre.orders@, o.counter) == o);
            }
            assert(id != o.counter);
            assert(pre.owner_ids(a).contains(id));
        }
        let k2 = choose|k2: int| 0 <= k2 < pre.owner_ids(a).len() && pre.owner_ids(a)[k2] == id;
        assert(pre.owner_ids(a)[k2] == id);
        assert(ord_has(pre.orders@, id) && ord_of(pre.orders@, id).address == a);
    }
    assert forall|j2: int| 0 <= j2 < post.orders@.len() implies {
        let oj = #[trigger] post.orders@[j2];
        post.owner_ids(oj.address).contains(oj.counter)
    } by {
        let oj = post.orders@[j2];
        if j2 < j {
            assert(oj == pre.orders@[j2]);
            assert(pre.orders@[j2].counter != pre.orders@[j].counter);
        } else {
            assert(oj == pre.orders@[j2 + 1]);
            assert(pre.orders@[j2 + 1].counter != pre.orders@[j].counter);
        }
        assert(pre.owner_ids(oj.address).contains(oj.counter));
        assert(oj.counter != o.counter);
        if oj.address == o.address {
            assert(post.owner_ids(oj.address).contains(oj.counter));
        } else {
            assert(post.owner_ids(oj.address) == pre.owner_ids(oj.address));
        }
    }
}

/// Well-formedness carries across removing one order from the store and its
/// counter from both indexes.
pub proof fn lemma_wf_after_remove(pre: Subcosdex, post: Subcosdex, j: int)
    requires
        pre.wf(),
        0 <= j < pre.orders@.len(),
        post.balances_ok(),
        post.next_counter == pre.next_counter,
        post.orders@ == pre.orders@.remove(j),
        a_unique(post.pair_index@),
        forall|b1: AssetId, b2: AssetId| ids_unique(#[trigger] post.pair_ids(b1, b2)),
        a_unique(post.owner_index@),
        forall|a: AccountId| ids_unique(#[trigger] post.owner_ids(a)),
        ({
            let o = pre.orders@[j];
            &&& !post.pair_ids(o.pair.0, o.pair.1).contains(o.counter)
            &&& forall|y: u64|
                y != o.counter ==> post.pair_ids(o.pair.0, o.pair.1).contains(y)
                    == pre.pair_ids(o.pair.0, o.pair.1).contains(y)
            &&& pair_ids_except(pre, post, o.pair.0, o.pair.1)
            &&& !post.owner_ids(o.address).contains(o.counter)
            &&& forall|y: u64|
                y != o.counter ==> post.owner_ids(o.address).contains(y) == pre.owner_ids(
                    o.address,
                ).contains(y)
            &&& owner_ids_except(pre, post, o.address)
        }),
    ensures
        post.wf(),
{
    lemma_remove_orders_ok(pre, post, j);
    lemma_remove_pair_index_ok(pre, post, j);
    lemma_remove_owner_index_ok(pre, post, j);
}

/// What a successful `make_order` does: the offered amount moves into escrow
/// (one balance shrinks), one new order with the next counter is appended to
/// the store and to both indexes, the counter advances, and one
/// `OrderCreated` event is appended.
pub open spec fn make_ok(
    pre: Subcosdex,
    post: Subcosdex,
    owner: AccountId,
    a1: AssetId,
    a2: AssetId,
    offered: u128,
    requested: u128,
    ot: OrderType,
) -> bool {
    let ctr = pre.next_counter;
    let o = WrapperOrder {
        counter: ctr,
        address: owner,
        pair: (a1, a2),
        timestamp: ctr,
        order_type: ot,
        amount_offered: offered,
        amount_requested: requested,
    };
    &&& post.next_counter == pre.next_counter + 1
    &&& post.orders@ == pre.orders@.push(o)
    &&& post.has_order_id(ctr)
    &&& post.spec_order(ctr) == o
    &&& forall|id2: u64| id2 != ctr ==> #[trigger] post.has_order_id(id2) == pre.has_order_id(
        id2,
    )
    &&& forall|id2: u64|
        id2 != ctr && pre.has_order_id(id2) ==> #[trigger] post.spec_order(id2)
            == pre.spec_order(id2)
    &&& post.spec_balance(owner, a1) == pre.spec_balance(owner, a1) - offered
    &&& balances_except(pre, post, owner, a1)
    &&& post.pair_ids(a1, a2) == pre.pair_ids(a1, a2).push(ctr)
    &&& pair_ids_except(pre, post, a1, a2)
    &&& post.owner_ids(owner) == pre.owner_ids(owner).push(ctr)
    &&& owner_ids_except(pre, post, owner)
    &&& post.events@ == pre.events@.push(
        Event::OrderCreated(
            OrderCreated {
                asset_id_1: a1,
                asset_id_2: a2,
                offered_amount: offered,
                requested_amount: requested,
                order_type: ot,
            },
        ),
    )
}

/// What a successful `cancel_order` does: the escrowed offered amount flows
/// back to the owner, the order leaves the store and both indexes (stably),
/// the counter stays, and one `OrderCanceled` event is appended.
pub open spec fn cancel_ok(pre: Subcosdex, post: Subcosdex, id: u64) -> bool {
    let o = pre.spec_order(id);
    &&& post.orders@ == pre.orders@.remove(ord_at(pre.orders@, id))
    &&& !post.has_order_id(id)
    &&& forall|id2: u64| id2 != id ==> #[trigger] post.has_order_id(id2) == pre.has_order_id(
        id2,
    )
    &&& forall|id2: u64|
        id2 != id && pre.has_order_id(id2) ==> #[trigger] post.spec_order(id2)
            == pre.spec_order(id2)
    &&& post.spec_balance(o.address, o.pair.0) == pre.spec_balance(o.address, o.pair.0)
        + o.amount_offered
    &&& balances_except(pre, post, o.address, o.pair.0)
    &&& post.pair_ids(o.pair.0, o.pair.1) == pre.pair_ids(o.pair.0, o.pair.1).remove(
        ids_at(pre.pair_ids(o.pair.0, o.pair.1), id),
    )
    &&& !post.pair_ids(o.pair.0, o.pair.1).contains(id)
    &&& pair_ids_except(pre, post, o.pair.0, o.pair.1)
    &&& post.owner_ids(o.address) == pre.owner_ids(o.address).remove(
        ids_at(pre.owner_ids(o.address), id),
    )
    &&& !post.owner_ids(o.address).contains(id)
    &&& owner_ids_except(pre, post, o.address)
    &&& post.next_counter == pre.next_counter
    &&& post.events@ == pre.events@.push(Event::OrderCanceled(OrderCanceled { counter: id }))
}

/// The balance of `(a, x)` after settling order `o` against `taker`: the
/// requested amount moves from taker to maker and the escrowed offered
/// amount reaches the taker.
pub open spec fn take_balance_delta(
    pre: Subcosdex,
    o: WrapperOrder,
    taker: AccountId,
    a: AccountId,
    x: AssetId,
) -> int {
    pre.spec_balance(a, x) - (
        if a == taker && x == o.pair.1 {
            o.amount_requested as int
        } else {
            0
        }
    ) + (
        if a == o.address && x == o.pair.1 {
            o.amount_requested as int
        } else {
            0
        }
    ) + (
        if a == taker && x == o.pair.0 {
            o.amount_offered as int
        } else {
            0
        }
    )
}

/// What a successful `take_order` does: full settlement of both legs, the
/// order leaves the store and both indexes (stably), and one `OrderTaken`
/// event is appended.
pub open spec fn take_ok(pre: Subcosdex, post: Subcosdex, id: u64, taker: AccountId) -> bool {
    let o = pre.spec_order(id);
    &&& post.orders@ == pre.orders@.remove(ord_at(pre.orders@, id))
    &&& !post.has_order_id(id)
    &&& forall|id2: u64| id2 != id ==> #[trigger] post.has_order_id(id2) == pre.has_order_id(
        id2,
    )
    &&& forall|id2: u64|
        id2 != id && pre.has_order_id(id2) ==> #[trigger] post.spec_order(id2)
            == pre.spec_order(id2)
    &&& forall|a: AccountId, x: AssetId| #[trigger] post.spec_balance(a, x)
        == take_balance_delta(pre, o, taker, a, x)
    &&& post.pair_ids(o.pair.0, o.pair.1) == pre.pair_ids(o.pair.0, o.pair.1).remove(
        ids_at(pre.pair_ids(o.pair.0, o.pair.1), id),
    )
    &&& !post.pair_ids(o.pair.0, o.pair.1).contains(id)
    &&& pair_ids_except(pre, post, o.pair.0, o.pair.1)
    &&& post.owner_ids(o.address) == pre.owner_ids(o.address).remove(
        ids_at(pre.owner_ids(o.address), id),
    )
    &&& !post.owner_ids(o.address).contains(id)
    &&& owner_ids_except(pre, post, o.address)
    &&& post.next_counter == pre.next_counter
    &&& post.events@ == pre.events@.push(Event::OrderTaken(OrderTaken { counter: id }))
}

impl Subcosdex {
    /// Machine limit on cancellation: refunding the escrow must not overflow
    /// the owner's balance.
    pub open spec fn cancel_fits(&self, id: u64, requester: AccountId) -> bool {
        (self.has_order_id(id) && self.spec_order(id).address == requester) ==> self.spec_balance(
            self.spec_order(id).address,
            self.spec_order(id).pair.0,
        ) + self.spec_order(id).amount_offered <= u128::MAX
    }

    /// Machine limit on taking: neither settlement credit may overflow the
    /// receiving balance.
    pub open spec fn take_fits(&self, id: u64, taker: AccountId) -> bool {
        (self.has_order_id(id) && self.spec_order(id).address != taker && self.spec_balance(
            taker,
            self.spec_order(id).pair.1,
        ) >= self.spec_order(id).amount_requested) ==> {
            let o = self.spec_order(id);
            &&& self.spec_balance(o.address, o.pair.1) + o.amount_requested <= u128::MAX
            &&& self.spec_balance(taker, o.pair.0) + o.amount_offered - (
                if o.pair.0 == o.pair.1 {
                    o.amount_requested as int
                } else {
                    0
                }
            ) <= u128::MAX
        }
    }

    /// The position of the live order with counter `id`, if any.
    pub(crate) fn find_order_pos(&self, id: u64) -> (r: Option<usize>)
        ensures
            match r {
                Some(j) => j < self.orders@.len() && self.orders@[j as int].counter == id,
                None => !ord_has(self.orders@, id),
            },
    {
        let mut i: usize = 0;
        while i < self.orders.len()
            invariant
                i <= self.orders@.len(),
                forall|k: int| 0 <= k < i ==> (#[trigger] self.orders@[k]).counter != id,
            decreases self.orders@.len() - i,
        {
            let e = &self.orders[i];
            if e.counter == id {
                return Some(i);
            }
            i = i + 1;
        }
        None
    }

    /// The live order with counter `order_index`, or `None`: absence is a
    /// valid "not found", not an error.
    pub fn order_for(&self, order_index: u64) -> (r: Option<WrapperOrder>)
        requires
            self.wf(),
        ensures
            match r {
                Some(o) => self.has_order_id(order_index) && o == self.spec_order(order_index),
                None => !self.has_order_id(order_index),
            },
    {
        match self.find_order_pos(order_index) {
            Some(j) => {
                let o = self.orders[j];
                proof {
                    lemma_ord_at(self.orders@, order_index, j as int);
                }
                Some(o)
            },
            None => None,
        }
    }

    /// Creates an order: validates both amounts, moves the offered amount of
    /// `asset_id_1` from the owner's balance into escrow, stores the order
    /// under the next counter, lists it in both indexes, and appends one
    /// `OrderCreated` event.  Returns the new order's counter.
    pub fn make_order(
        &mut self,
        owner: AccountId,
        asset_id_1: AssetId,
        asset_id_2: AssetId,
        offered_amount: u128,
        requested_amount: u128,
        order_type: OrderType,
    ) -> (r: Result<u64, DexError>)
        requires
            old(self).wf(),
            old(self).next_counter < u64::MAX,
        ensures
            final(self).wf(),
            offered_amount == 0 || requested_amount == 0 ==> r == Err::<u64, DexError>(
                DexError::InvalidAmount,
            ) && *final(self) == *old(self),
            offered_amount > 0 && requested_amount > 0 && old(self).spec_balance(
                owner,
                asset_id_1,
            ) < offered_amount ==> r == Err::<u64, DexError>(DexError::InsufficientBalance)
                && *final(self) == *old(self),
            offered_amount > 0 && requested_amount > 0 && old(self).spec_balance(
                owner,
                asset_id_1,
            ) >= offered_amount ==> r == Ok::<u64, DexError>(old(self).next_counter) && make_ok(
                *old(self),
                *final(self),
                owner,
                asset_id_1,
                asset_id_2,
                offered_amount,
                requested_amount,
                order_type,
            ),
    {
        let ghost pre = *self;
        if offered_amount == 0 || requested_amount == 0 {
            return Err(DexError::InvalidAmount);
        }
        let bal = self.balance_of(owner, asset_id_1);
        if bal < offered_amount {
            return Err(DexError::InsufficientBalance);
        }
        let ctr = self.next_counter;
        self.debit(owner, asset_id_1, offered_amount);
        let ghost s1 = *self;
        let o = WrapperOrder {
            counter: ctr,
            address: owner,
            pair: (asset_id_1, asset_id_2),
            timestamp: ctr,
            order_type,
            amount_offered: offered_amount,
            amount_requested: requested_amount,
        };
        self.orders.push(o);
        let ghost s2 = *self;
        proof {
            lemma_fresh_counter(pre);
            Subcosdex::lemma_same_pair_index(pre, s2);
            Subcosdex::lemma_same_owner_index(pre, s2);
            assert(!s2.pair_ids(asset_id_1, asset_id_2).contains(ctr));
            assert(!s2.owner_ids(owner).contains(ctr));
        }
        self.push_pair_id(asset_id_1, asset_id_2, ctr);
        let ghost s3 = *self;
        proof {
            Subcosdex::lemma_same_owner_index(s2, s3);
        }
        self.push_owner_id(owner, ctr);
        let ghost s4 = *self;
        self.next_counter = ctr + 1;
        self.events.push(
            Event::OrderCreated(
                OrderCreated {
                    asset_id_1,
                    asset_id_2,
                    offered_amount,
                    requested_amount,
                    order_type,
                },
            ),
        );
        proof {
            let post = *self;
            Subcosdex::lemma_same_balances(s1, post);
            Subcosdex::lemma_same_pair_index(s3, post);
            Subcosdex::lemma_same_owner_index(s4, post);
            Subcosdex::lemma_same_pair_index(s3, s4);
            assert(post.orders@ == pre.orders@.push(o));
            assert(post.pair_ids(asset_id_1, asset_id_2) == pre.pair_ids(
                asset_id_1,
                asset_id_2,
            ).push(ctr));
            assert forall|b1: AssetId, b2: AssetId| !(b1 == asset_id_1 && b2 == asset_id_2)
                implies #[trigger] post.pair_ids(b1, b2) == pre.pair_ids(b1, b2) by {
                assert(post.pair_ids(b1, b2) == s3.pair_ids(b1, b2));
                assert(s3.pair_ids(b1, b2) == s2.pair_ids(b1, b2));
                assert(s2.pair_ids(b1, b2) == pre.pair_ids(b1, b2));
            }
            assert(post.owner_ids(owner) == pre.owner_ids(owner).push(ctr));
            assert forall|a: AccountId| a != owner implies #[trigger] post.owner_ids(a)
                == pre.owner_ids(a) by {
                assert(post.owner_ids(a) == s4.owner_ids(a));
                assert(s4.owner_ids(a) == s3.owner_ids(a));
                assert(s3.owner_ids(a) == s2.owner_ids(a));
                assert(s2.owner_ids(a) == pre.owner_ids(a));
            }
            lemma_wf_after_insert(pre, post, o);
            lemma_ord_push(pre.orders@, o);
            assert(make_ok(pre, post, owner, asset_id_1, asset_id_2, offered_amount,
                requested_amount, order_type));
        }
        Ok(ctr)
    }

    /// Cancels a live order at its owner's request: refunds the escrowed
    /// offered amount, removes the order from the store and both indexes
    /// (stably), and appends one `OrderCanceled` event.  Fails with
    /// `NotFound` for an unknown id and `NotOwner` for a foreign requester,
    /// changing nothing in either case; this is the only path that returns
    /// reserved funds without a trade.
    pub fn cancel_order(&mut self, order_index: u64, requester: AccountId) -> (r: Result<
        (),
        DexError,
    >)
        requires
            old(self).wf(),
            old(self).cancel_fits(order_index, requester),
        ensures
            final(self).wf(),
            !old(self).has_order_id(order_index) ==> r == Err::<(), DexError>(DexError::NotFound)
                && *final(self) == *old(self),
            old(self).has_order_id(order_index) && old(self).spec_order(order_index).address
                != requester ==> r == Err::<(), DexError>(DexError::NotOwner) && *final(self)
                == *old(self),
            old(self).has_order_id(order_index) && old(self).spec_order(order_index).address
                == requester ==> r == Ok::<(), DexError>(()) && cancel_ok(
                *old(self),
                *final(self),
                order_index,
            ),
    {
        let ghost pre = *self;
        let j = match self.find_order_pos(order_index) {
            Some(j) => j,
            None => {
                return Err(DexError::NotFound);
            },
        };
        let o = self.orders[j];
        proof {
            lemma_ord_at(pre.orders@, order_index, j as int);
        }
        if o.address != requester {
            return Err(DexError::NotOwner);
        }
        self.credit(o.address, o.pair.0, o.amount_offered);
        let ghost s1 = *self;
        let _removed = self.orders.remove(j);
        let ghost s2 = *self;
        proof {
            Subcosdex::lemma_same_pair_index(pre, s2);
            Subcosdex::lemma_same_owner_index(pre, s2);
            assert(pre.pair_ids(o.pair.0, o.pair.1).contains(o.counter));
            assert(s2.pair_ids(o.pair.0, o.pair.1).contains(o.counter));
        }
        self.remove_pair_id(o.pair.0, o.pair.1, o.counter);
        let ghost s3 = *self;
        proof {
            Subcosdex::lemma_same_owner_index(s2, s3);
            assert(pre.owner_ids(o.address).contains(o.counter));
            assert(s3.owner_ids(o.address).contains(o.counter));
        }
        self.remove_owner_id(o.address, o.counter);
        let ghost s4 = *self;
        self.events.push(Event::OrderCanceled(OrderCanceled { counter: order_index }));
        proof {
            let post = *self;
            Subcosdex::lemma_same_balances(s1, post);
            Subcosdex::lemma_same_pair_index(s3, post);
            Subcosdex::lemma_same_pair_index(s3, s4);
            Subcosdex::lemma_same_owner_index(s4, post);
            lemma_ord_remove(pre.orders@, j as int);
            assert(post.orders@ == pre.orders@.remove(j as int));
            assert(post.pair_ids(o.pair.0, o.pair.1) == pre.pair_ids(o.pair.0, o.pair.1).remove(
                ids_at(pre.pair_ids(o.pair.0, o.pair.1), o.counter),
            ));
            assert forall|b1: AssetId, b2: AssetId| !(b1 == o.pair.0 && b2 == o.pair.1)
                implies #[trigger] post.pair_ids(b1, b2) == pre.pair_ids(b1, b2) by {
                assert(post.pair_ids(b1, b2) == s3.pair_ids(b1, b2));
                assert(s3.pair_ids(b1, b2) == s2.pair_ids(b1, b2));
                assert(s2.pair_ids(b1, b2) == pre.pair_ids(b1, b2));
            }
            assert(post.owner_ids(o.address) == pre.owner_ids(o.address).remove(
                ids_at(pre.owner_ids(o.address), o.counter),
            ));
            assert forall|a: AccountId| a != o.address implies #[trigger] post.owner_ids(a)
                == pre.owner_ids(a) by {
                assert(post.owner_ids(a) == s4.owner_ids(a));
                assert(s4.owner_ids(a) == s3.owner_ids(a));
                assert(s3.owner_ids(a) == s2.owner_ids(a));
                assert(s2.owner_ids(a) == pre.owner_ids(a));
            }
            assert forall|y: u64| y != o.counter implies post.pair_ids(
                o.pair.0,
                o.pair.1,
            ).contains(y) == pre.pair_ids(o.pair.0, o.pair.1).contains(y) by {
                assert(s3.pair_ids(o.pair.0, o.pair.1).contains(y) == s2.pair_ids(
                    o.pair.0,
                    o.pair.1,
                ).contains(y));
            }
            assert forall|y: u64| y != o.counter implies post.owner_ids(o.address).contains(y)
                == pre.owner_ids(o.address).contains(y) by {
                assert(s4.owner_ids(o.address).contains(y) == s3.owner_ids(o.address).contains(
                    y,
                ));
            }
            lemma_wf_after_remove(pre, post, j as int);
            assert(cancel_ok(pre, post, order_index));
        }
        Ok(())
    }

    /// Takes (fully settles) a live order: the requested amount of the
    /// second pair asset moves from the taker to the maker, the escrowed
    /// offered amount of the first reaches the taker, the order leaves the
    /// store and both indexes (stably), and one `OrderTaken` event is
    /// appended.  Fails with `NotFound` for an unknown id, `SelfTrade` when
    /// the taker is the maker, and `InsufficientBalance` when the taker
    /// cannot cover the requested amount; the order stays open and nothing
    /// changes in any failure case (settlement is all-or-nothing).
    pub fn take_order(&mut self, order_index: u64, taker: AccountId) -> (r: Result<
        (),
        DexError,
    >)
        requires
            old(self).wf(),
            old(self).take_fits(order_index, taker),
        ensures
            final(self).wf(),
            !old(self).has_order_id(order_index) ==> r == Err::<(), DexError>(DexError::NotFound)
                && *final(self) == *old(self),
            old(self).has_order_id(order_index) && old(self).spec_order(order_index).address
                == taker ==> r == Err::<(), DexError>(DexError::SelfTrade) && *final(self)
                == *old(self),
            old(self).has_order_id(order_index) && old(self).spec_order(order_index).address
                != taker && old(self).spec_balance(
                taker,
                old(self).spec_order(order_index).pair.1,
            ) < old(self).spec_order(order_index).amount_requested ==> r == Err::<(), DexError>(
                DexError::InsufficientBalance,
            ) && *final(self) == *old(self),
            old(self).has_order_id(order_index) && old(self).spec_order(order_index).address
                != taker && old(self).spec_balance(
                taker,
                old(self).spec_order(order_index).pair.1,
            ) >= old(self).spec_order(order_index).amount_requested ==> r == Ok::<(), DexError>(
                (),
            ) && take_ok(*old(self), *final(self), order_index, taker),
    {
        let ghost pre = *self;
        let j = match self.find_order_pos(order_index) {
            Some(j) => j,
            None => {
                return Err(DexError::NotFound);
            },
        };
        let o = self.orders[j];
        proof {
            lemma_ord_at(pre.orders@, order_index, j as int);
        }
        if o.address == taker {
            return Err(DexError::SelfTrade);
        }
        let tb = self.balance_of(taker, o.pair.1);
        if tb < o.amount_requested {
            return Err(DexError::InsufficientBalance);
        }
        self.debit(taker, o.pair.1, o.amount_requested);
        self.credit(o.address, o.pair.1, o.amount_requested);
        self.credit(taker, o.pair.0, o.amount_offered);
        let ghost s1 = *self;
        proof {
            assert forall|a: AccountId, x: AssetId| #[trigger] s1.spec_balance(a, x)
                == take_balance_delta(pre, o, taker, a, x) by {}
        }
        let _removed = self.orders.remove(j);
        let ghost s2 = *self;
        proof {
            Subcosdex::lemma_same_pair_index(pre, s2);
            Subcosdex::lemma_same_owner_index(pre, s2);
            assert(pre.pair_ids(o.pair.0, o.pair.1).contains(o.counter));
            assert(s2.pair_ids(o.pair.0, o.pair.1).contains(o.counter));
        }
        self.remove_pair_id(o.pair.0, o.pair.1, o.counter);
        let ghost s3 = *self;
        proof {
            Subcosdex::lemma_same_owner_index(s2, s3);
            assert(pre.owner_ids(o.address).contains(o.counter));
            assert(s3.owner_ids(o.address).contains(o.counter));
        }
        self.remove_owner_id(o.address, o.counter);
        let ghost s4 = *self;
        self.events.push(Event::OrderTaken(OrderTaken { counter: order_index }));
        proof {
            let post = *self;
            Subcosdex::lemma_same_balances(s1, post);
            Subcosdex::lemma_same_pair_index(s3, post);
            Subcosdex::lemma_same_pair_index(s3, s4);
            Subcosdex::lemma_same_owner_index(s4, post);
            lemma_ord_remove(pre.orders@, j as int);
            assert(post.orders@ == pre.orders@.remove(j as int));
            assert(post.pair_ids(o.pair.0, o.pair.1) == pre.pair_ids(o.pair.0, o.pair.1).remove(
                ids_at(pre.pair_ids(o.pair.0, o.pair.1), o.counter),
            ));
            assert forall|b1: AssetId, b2: AssetId| !(b1 == o.pair.0 && b2 == o.pair.1)
                implies #[trigger] post.pair_ids(b1, b2) == pre.pair_ids(b1, b2) by {
                assert(post.pair_ids(b1, b2) == s3.pair_ids(b1, b2));
                assert(s3.pair_ids(b1, b2) == s2.pair_ids(b1, b2));
                assert(s2.pair_ids(b1, b2) == pre.pair_ids(b1, b2));
            }
            assert(post.owner_ids(o.address) == pre.owner_ids(o.address).remove(
                ids_at(pre.owner_ids(o.address), o.counter),
            ));
            assert forall|a: AccountId| a != o.address implies #[trigger] post.owner_ids(a)
                == pre.owner_ids(a) by {
                assert(post.owner_ids(a) == s4.owner_ids(a));
                assert(s4.owner_ids(a) == s3.owner_ids(a));
                assert(s3.owner_ids(a) == s2.owner_ids(a));
                assert(s2.owner_ids(a) == pre.owner_ids(a));
            }
            assert forall|y: u64| y != o.counter implies post.pair_ids(
                o.pair.0,
                o.pair.1,
            ).contains(y) == pre.pair_ids(o.pair.0, o.pair.1).contains(y) by {
                assert(s3.pair_ids(o.pair.0, o.pair.1).contains(y) == s2.pair_ids(
                    o.pair.0,
                    o.pair.1,
                ).contains(y));
            }
            assert forall|y: u64| y != o.counter implies post.owner_ids(o.address).contains(y)
                == pre.owner_ids(o.address).contains(y) by {
                assert(s4.owner_ids(o.address).contains(y) == s3.owner_ids(o.address).contains(
                    y,
                ));
            }
            lemma_wf_after_remove(pre, post, j as int);
            assert forall|a: AccountId, x: AssetId| #[trigger] post.spec_balance(a, x)
                == take_balance_delta(pre, o, taker, a, x) by {
                assert(post.spec_balance(a, x) == s1.spec_balance(a, x));
            }
            assert(take_ok(pre, post, order_index, taker));
        }
        Ok(())
    }
}

} // verus!
