//! The mathematical model under the engine: association sequences with unique
//! keys (used for the balance ledger and both order indexes), sequences of
//! distinct order ids, and sequences of orders with distinct counters.

use vstd::prelude::*;
use crate::types::WrapperOrder;

verus! {

/// One key/value entry of an association sequence.
#[derive(Debug)]
pub struct Assoc<K, V> {
    pub key: K,
    pub val: V,
}

/// Some entry of `s` carries the key `k`.
pub open spec fn a_has<K, V>(s: Seq<Assoc<K, V>>, k: K) -> bool {
    exists|i: int| 0 <= i < s.len() && (#[trigger] s[i]).key == k
}

/// The position of the entry carrying `k` (unique when keys are distinct).
pub open spec fn a_at<K, V>(s: Seq<Assoc<K, V>>, k: K) -> int {
    choose|i: int| 0 <= i < s.len() && (#[trigger] s[i]).key == k
}

/// The entry carrying `k`.
pub open spec fn a_elem<K, V>(s: Seq<Assoc<K, V>>, k: K) -> Assoc<K, V> {
    s[a_at(s, k)]
}

/// No two entries of `s` share a key.
pub open spec fn a_unique<K, V>(s: Seq<Assoc<K, V>>) -> bool {
    forall|i: int, j: int|
        0 <= i < j < s.len() ==> (#[trigger] s[i]).key != (#[trigger] s[j]).key
}

/// With distinct keys, an entry seen at position `j` is the entry of its key.
pub proof fn lemma_a_at<K, V>(s: Seq<Assoc<K, V>>, k: K, j: int)
    requires
        a_unique(s),
        0 <= j < s.len(),
        s[j].key == k,
    ensures
        a_has(s, k),
        a_at(s, k) == j,
        a_elem(s, k) == s[j],
{
    assert(a_has(s, k));
    let i = a_at(s, k);
    assert(0 <= i < s.len() && s[i].key == k);
    if i != j {
        assert(s[i].key != s[j].key);
    }
}

/// Replacing the value of one entry keeps the keys, so lookups at every other
/// key are unchanged and the updated key now maps to the new entry.
pub proof fn lemma_a_update<K, V>(s: Seq<Assoc<K, V>>, j: int, e2: Assoc<K, V>)
    requires
        a_unique(s),
        0 <= j < s.len(),
        e2.key == s[j].key,
    ensures
        a_unique(s.update(j, e2)),
        forall|k: K| a_has(s.update(j, e2), k) == a_has(s, k),
        forall|k: K|
            k != e2.key && a_has(s, k) ==> a_elem(s.update(j, e2), k) == a_elem(s, k),
        a_has(s.update(j, e2), e2.key),
        a_elem(s.update(j, e2), e2.key) == e2,
{
    let t = s.update(j, e2);
    assert(forall|i: int| 0 <= i < t.len() ==> (#[trigger] t[i]).key == s[i].key);
    assert forall|k: K| a_has(t, k) == a_has(s, k) by {
        if a_has(t, k) {
            let i = choose|i: int| 0 <= i < t.len() && (#[trigger] t[i]).key == k;
            assert(s[i].key == k);
        }
        if a_has(s, k) {
            let i = choose|i: int| 0 <= i < s.len() && (#[trigger] s[i]).key == k;
            assert(t[i].key == k);
        }
    }
    assert forall|k: K| k != e2.key && a_has(s, k) implies a_elem(t, k) == a_elem(s, k) by {
        let i = a_at(s, k);
        assert(0 <= i < s.len() && s[i].key == k);
        assert(i != j);
        lemma_a_at(t, k, i);
    }
    lemma_a_at(t, e2.key, j);
}

/// Appending an entry with a fresh key leaves every other lookup unchanged.
pub proof fn lemma_a_push<K, V>(s: Seq<Assoc<K, V>>, e: Assoc<K, V>)
    requires
        a_unique(s),
        !a_has(s, e.key),
    ensures
        a_unique(s.push(e)),
        forall|k: K| a_has(s.push(e), k) == (a_has(s, k) || k == e.key),
        forall|k: K|
            k != e.key && a_has(s, k) ==> a_elem(s.push(e), k) == a_elem(s, k),
        a_has(s.push(e), e.key),
        a_elem(s.push(e), e.key) == e,
{
    let t = s.push(e);
    assert(forall|i: int| 0 <= i < s.len() ==> (#[trigger] t[i]).key == s[i].key);
    assert(t[s.len() as int].key == e.key);
    assert forall|k: K| a_has(t, k) == (a_has(s, k) || k == e.key) by {
        if a_has(t, k) {
            let i = choose|i: int| 0 <= i < t.len() && (#[trigger] t[i]).key == k;
            if i < s.len() {
                assert(s[i].key == k);
            }
        }
        if a_has(s, k) {
            let i = choose|i: int| 0 <= i < s.len() && (#[trigger] s[i]).key == k;
            assert(t[i].key == k);
        }
    }
    assert forall|k: K| k != e.key && a_has(s, k) implies a_elem(t, k) == a_elem(s, k) by {
        let i = a_at(s, k);
        assert(0 <= i < s.len() && s[i].key == k);
        lemma_a_at(t, k, i);
    }
    lemma_a_at(t, e.key, s.len() as int);
}

/// The position of `x` in a sequence of ids (unique when ids are distinct).
pub open spec fn ids_at(s: Seq<u64>, x: u64) -> int {
    choose|i: int| 0 <= i < s.len() && s[i] == x
}

/// No id occurs twice.
pub open spec fn ids_unique(s: Seq<u64>) -> bool {
    forall|i: int, j: int| 0 <= i < j < s.len() ==> s[i] != s[j]
}

/// With distinct ids, an id seen at position `j` is found there by `ids_at`.
pub proof fn lemma_ids_at(s: Seq<u64>, x: u64, j: int)
    requires
        ids_unique(s),
        0 <= j < s.len(),
        s[j] == x,
    ensures
        s.contains(x),
        ids_at(s, x) == j,
{
    assert(s.contains(x));
    let i = ids_at(s, x);
    assert(0 <= i < s.len() && s[i] == x);
}

/// Appending a fresh id keeps distinctness and only adds that id.
pub proof fn lemma_ids_push(s: Seq<u64>, x: u64)
    requires
        ids_unique(s),
        !s.contains(x),
    ensures
        ids_unique(s.push(x)),
        forall|y: u64| s.push(x).contains(y) == (s.contains(y) || y == x),
{
    let t = s.push(x);
    assert forall|y: u64| t.contains(y) == (s.contains(y) || y == x) by {
        if t.contains(y) {
            let i = choose|i: int| 0 <= i < t.len() && t[i] == y;
            if i < s.len() {
                assert(s[i] == y);
            }
        }
        if s.contains(y) {
            let i = choose|i: int| 0 <= i < s.len() && s[i] == y;
            assert(t[i] == y);
        }
        if y == x {
            assert(t[s.len() as int] == y);
        }
    }
}

/// Removing the entry at one position removes exactly that id.
pub proof fn lemma_ids_remove(s: Seq<u64>, j: int)
    requires
        ids_unique(s),
        0 <= j < s.len(),
    ensures
        ids_unique(s.remove(j)),
        !s.remove(j).contains(s[j]),
        forall|y: u64| y != s[j] ==> s.remove(j).contains(y) == s.contains(y),
{
    let t = s.remove(j);
    assert(forall|i: int| 0 <= i < j ==> t[i] == s[i]);
    assert(forall|i: int| j <= i < t.len() ==> t[i] == s[i + 1]);
    assert forall|y: u64| y != s[j] implies t.contains(y) == s.contains(y) by {
        if t.contains(y) {
            let i = choose|i: int| 0 <= i < t.len() && t[i] == y;
            if i < j {
                assert(s[i] == y);
            } else {
                assert(s[i + 1] == y);
            }
        }
        if s.contains(y) {
            let i = choose|i: int| 0 <= i < s.len() && s[i] == y;
            if i < j {
                assert(t[i] == y);
            } else {
                assert(i != j);
                assert(t[i - 1] == y);
            }
        }
    }
    if t.contains(s[j]) {
        let i = choose|i: int| 0 <= i < t.len() && t[i] == s[j];
        if i < j {
            assert(s[i] == s[j]);
        } else {
            assert(s[i + 1] == s[j]);
        }
    }
}

/// Some order in `s` carries the counter `id`.
pub open spec fn ord_has(s: Seq<WrapperOrder>, id: u64) -> bool {
    exists|i: int| 0 <= i < s.len() && (#[trigger] s[i]).counter == id
}

/// The position of the order with counter `id`.
pub open spec fn ord_at(s: Seq<WrapperOrder>, id: u64) -> int {
    choose|i: int| 0 <= i < s.len() && (#[trigger] s[i]).counter == id
}

/// The order with counter `id`.
pub open spec fn ord_of(s: Seq<WrapperOrder>, id: u64) -> WrapperOrder {
    s[ord_at(s, id)]
}

/// No two orders share a counter.
pub open spec fn ord_unique(s: Seq<WrapperOrder>) -> bool {
    forall|i: int, j: int|
        0 <= i < j < s.len() ==> (#[trigger] s[i]).counter != (#[trigger] s[j]).counter
}

/// With distinct counters, an order seen at position `j` is the order of its
/// counter.
pub proof fn lemma_ord_at(s: Seq<WrapperOrder>, id: u64, j: int)
    requires
        ord_unique(s),
        0 <= j < s.len(),
        s[j].counter == id,
    ensures
        ord_has(s, id),
        ord_at(s, id) == j,
        ord_of(s, id) == s[j],
{
    assert(ord_has(s, id));
    let i = ord_at(s, id);
    assert(0 <= i < s.len() && s[i].counter == id);
}

/// Appending an order with a fresh counter leaves every other lookup
/// unchanged.
pub proof fn lemma_ord_push(s: Seq<WrapperOrder>, o: WrapperOrder)
    requires
        ord_unique(s),
        !ord_has(s, o.counter),
    ensures
        ord_unique(s.push(o)),
        forall|id: u64| ord_has(s.push(o), id) == (ord_has(s, id) || id == o.counter),
        forall|id: u64|
            id != o.counter && ord_has(s, id) ==> ord_of(s.push(o), id) == ord_of(s, id),
        ord_has(s.push(o), o.counter),
        ord_of(s.push(o), o.counter) == o,
{
    let t = s.push(o);
    assert(forall|i: int| 0 <= i < s.len() ==> (#[trigger] t[i]).counter == s[i].counter);
    assert(t[s.len() as int] == o);
    assert forall|id: u64| ord_has(t, id) == (ord_has(s, id) || id == o.counter) by {
        if ord_has(t, id) {
            let i = choose|i: int| 0 <= i < t.len() && (#[trigger] t[i]).counter == id;
            if i < s.len() {
                assert(s[i].counter == id);
            }
        }
        if ord_has(s, id) {
            let i = choose|i: int| 0 <= i < s.len() && (#[trigger] s[i]).counter == id;
            assert(t[i].counter == id);
        }
    }
    assert forall|id: u64| id != o.counter && ord_has(s, id) implies ord_of(t, id) == ord_of(
        s,
        id,
    ) by {
        let i = ord_at(s, id);
        assert(0 <= i < s.len() && s[i].counter == id);
        lemma_ord_at(t, id, i);
    }
    lemma_ord_at(t, o.counter, s.len() as int);
}

/// Removing the order at one position removes exactly that counter.
pub proof fn lemma_ord_remove(s: Seq<WrapperOrder>, j: int)
    requires
        ord_unique(s),
        0 <= j < s.len(),
    ensures
        ord_unique(s.remove(j)),
        !ord_has(s.remove(j), s[j].counter),
        forall|id: u64|
            id != s[j].counter ==> ord_has(s.remove(j), id) == ord_has(s, id),
        forall|id: u64|
            id != s[j].counter && ord_has(s, id) ==> ord_of(s.remove(j), id) == ord_of(s, id),
{
    let t = s.remove(j);
    assert(forall|i: int| 0 <= i < j ==> t[i] == s[i]);
    assert(forall|i: int| j <= i < t.len() ==> t[i] == s[i + 1]);
    assert forall|id: u64| id != s[j].counter implies ord_has(t, id) == ord_has(s, id) by {
        if ord_has(t, id) {
            let i = choose|i: int| 0 <= i < t.len() && (#[trigger] t[i]).counter == id;
            if i < j {
                assert(s[i].counter == id);
            } else {
                assert(s[i + 1].counter == id);
            }
        }
        if ord_has(s, id) {
            let i = choose|i: int| 0 <= i < s.len() && (#[trigger] s[i]).counter == id;
            if i < j {
                assert(t[i].counter == id);
            } else {
                assert(i != j);
                assert(t[i - 1].counter == id);
            }
        }
    }
    assert forall|id: u64| id != s[j].counter && ord_has(s, id) implies ord_of(t, id) == ord_of(
        s,
        id,
    ) by {
        let i = ord_at(s, id);
        assert(0 <= i < s.len() && s[i].counter == id);
        if i < j {
            lemma_ord_at(t, id, i);
        } else {
            assert(i != j);
            assert(t[i - 1].counter == id);
            lemma_ord_at(t, id, i - 1);
        }
    }
    if ord_has(t, s[j].counter) {
        let i = choose|i: int| 0 <= i < t.len() && (#[trigger] t[i]).counter == s[j].counter;
        if i < j {
            assert(s[i].counter == s[j].counter);
        } else {
            assert(s[i + 1].counter == s[j].counter);
        }
    }
}

} // verus!
