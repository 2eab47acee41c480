//! The mathematical model of one side of the book: a sequence of price
//! levels in ascending price order, each a queue of orders in time priority.

use crate::orderbook::identifiable_order::IdentifiableOrder;
use crate::orderbook::levels::{has_key, keys_ascending, Level};
use crate::price::{key_le, key_lt, key_valid, PriceKey};
use vstd::prelude::*;
use vstd::seq_lib::{
    to_multiset_build, to_multiset_contains, to_multiset_insert, to_multiset_len,
    to_multiset_remove,
};

verus! {

/// A queue rests in the book only while it holds an order, and every order in
/// it has quantity left.
pub open spec fn queue_wf(q: Seq<IdentifiableOrder>) -> bool {
    &&& q.len() > 0
    &&& forall|j: int| 0 <= j < q.len() ==> (#[trigger] q[j]).qty > 0
}

/// Whether the keys of `s` strictly ascend, so that no key occurs twice.
pub open spec fn keys_strictly_ascending(s: Seq<Level>) -> bool {
    forall|i: int, j: int| 0 <= i < j < s.len() ==> key_lt((#[trigger] s[i]).0, (#[trigger] s[j]).0)
}

/// The invariant of a side: every key is a price, prices strictly ascend, and
/// every level holds a well-formed queue.
pub open spec fn side_wf(s: Seq<Level>) -> bool {
    &&& forall|i: int| 0 <= i < s.len() ==> key_valid((#[trigger] s[i]).0)
    &&& keys_strictly_ascending(s)
    &&& forall|i: int| 0 <= i < s.len() ==> queue_wf((#[trigger] s[i]).1)
}

/// The number of leading levels priced strictly below `k`. On a side whose
/// prices ascend this is the position at which a level priced `k` stands or
/// would stand.
pub open spec fn levels_below(s: Seq<Level>, k: PriceKey) -> int
    decreases s.len(),
{
    if s.len() == 0 || !key_lt(s[0].0, k) {
        0
    } else {
        1 + levels_below(s.drop_first(), k)
    }
}

/// The side with the order `o` added at price `k`: appended to the queue at
/// `k` where that level exists, else alone in a new level at the position
/// that keeps prices ascending.
pub open spec fn insert_level(s: Seq<Level>, k: PriceKey, o: IdentifiableOrder) -> Seq<Level> {
    let p = levels_below(s, k);
    if p < s.len() && s[p].0 == k {
        s.update(p, (k, s[p].1.push(o)))
    } else {
        s.insert(p, (k, seq![o]))
    }
}

/// The side after a limit order `o` has come to rest at price `k`. An order
/// without quantity does not rest: it leaves the side as it is.
pub open spec fn rest_order(s: Seq<Level>, k: PriceKey, o: IdentifiableOrder) -> Seq<Level> {
    if o.qty > 0 {
        insert_level(s, k, o)
    } else {
        s
    }
}

/// The position of the oldest order of `owner` in `q`, or `q.len()` when the
/// owner has none there.
pub open spec fn first_owned(q: Seq<IdentifiableOrder>, owner: u64) -> int
    decreases q.len(),
{
    if q.len() == 0 || q[0].id == owner {
        0
    } else {
        1 + first_owned(q.drop_first(), owner)
    }
}

/// Whether `owner` has an order resting at price `k`.
pub open spec fn has_order(s: Seq<Level>, k: PriceKey, owner: u64) -> bool {
    let p = levels_below(s, k);
    p < s.len() && s[p].0 == k && first_owned(s[p].1, owner) < s[p].1.len()
}

/// The side after the oldest order of `owner` at price `k` has been
/// cancelled. A level that loses its only order leaves the side. Where the
/// owner has no order at that price the side is unchanged.
pub open spec fn cancel_level(s: Seq<Level>, k: PriceKey, owner: u64) -> Seq<Level> {
    let p = levels_below(s, k);
    if has_order(s, k, owner) {
        if s[p].1.len() == 1 {
            s.remove(p)
        } else {
            s.update(p, (k, s[p].1.remove(first_owned(s[p].1, owner))))
        }
    } else {
        s
    }
}

/// The side after the whole level at price `k` has been taken out.
pub open spec fn remove_level(s: Seq<Level>, k: PriceKey) -> Seq<Level> {
    let p = levels_below(s, k);
    if p < s.len() && s[p].0 == k {
        s.remove(p)
    } else {
        s
    }
}

/// The quantity resting in a queue: the sum of its orders' open quantities.
pub open spec fn queue_qty(q: Seq<IdentifiableOrder>) -> nat
    decreases q.len(),
{
    if q.len() == 0 {
        0
    } else {
        queue_qty(q.drop_last()) + q.last().qty as nat
    }
}

/// The quantity resting on a side: the sum over its levels.
pub open spec fn side_qty(s: Seq<Level>) -> nat
    decreases s.len(),
{
    if s.len() == 0 {
        0
    } else {
        side_qty(s.drop_last()) + queue_qty(s.last().1)
    }
}

/// A quantity as a `u64` can report it: itself where it fits, else the
/// largest `u64`.
pub open spec fn saturated(n: nat) -> u64 {
    if n > u64::MAX {
        u64::MAX
    } else {
        n as u64
    }
}

/// On strictly ascending prices, `levels_below` splits the side in the levels
/// priced below `k` and those priced at or above it.
pub proof fn lemma_levels_below(s: Seq<Level>, k: PriceKey)
    requires
        keys_strictly_ascending(s),
    ensures
        0 <= levels_below(s, k) <= s.len(),
        forall|i: int| 0 <= i < levels_below(s, k) ==> key_lt((#[trigger] s[i]).0, k),
        forall|i: int| levels_below(s, k) <= i < s.len() ==> key_le(k, (#[trigger] s[i]).0),
    decreases s.len(),
{
    if s.len() == 0 || !key_lt(s[0].0, k) {
    } else {
        let t = s.drop_first();
        assert forall|i: int, j: int| 0 <= i < j < t.len() implies key_lt(
            (#[trigger] t[i]).0,
            (#[trigger] t[j]).0,
        ) by {
            assert(t[i] == s[i + 1]);
            assert(t[j] == s[j + 1]);
        }
        lemma_levels_below(t, k);
        let p = levels_below(s, k);
        assert forall|i: int| 0 <= i < p implies key_lt((#[trigger] s[i]).0, k) by {
            if i > 0 {
                assert(s[i] == t[i - 1]);
            }
        }
        assert forall|i: int| p <= i < s.len() implies key_le(k, (#[trigger] s[i]).0) by {
            assert(s[i] == t[i - 1]);
        }
    }
}

/// On strictly ascending prices, a level priced `k` stands at position
/// `levels_below(s, k)`.
pub proof fn lemma_level_position(s: Seq<Level>, k: PriceKey, i: int)
    requires
        keys_strictly_ascending(s),
        0 <= i < s.len(),
        s[i].0 == k,
    ensures
        levels_below(s, k) == i,
{
    lemma_levels_below(s, k);
    let p = levels_below(s, k);
    if p < i {
        assert(key_le(k, s[p].0));
        assert(key_lt(s[p].0, s[i].0));
    } else if p > i {
        assert(key_lt(s[i].0, k));
    }
}

/// On strictly ascending prices, no level is priced `k` unless the one at
/// position `levels_below(s, k)` is.
pub proof fn lemma_level_absent(s: Seq<Level>, k: PriceKey)
    requires
        keys_strictly_ascending(s),
        !has_key(s, k),
    ensures
        levels_below(s, k) == s.len() || s[levels_below(s, k)].0 != k,
        0 <= levels_below(s, k) <= s.len(),
{
    lemma_levels_below(s, k);
    let p = levels_below(s, k);
    if p < s.len() {
        assert(s[p].0 != k);
    }
}

/// `first_owned` is the position of the first order of `owner`: no order
/// before it is the owner's, and the one at it is unless it is the length.
pub proof fn lemma_first_owned(q: Seq<IdentifiableOrder>, owner: u64)
    ensures
        0 <= first_owned(q, owner) <= q.len(),
        forall|j: int| 0 <= j < first_owned(q, owner) ==> (#[trigger] q[j]).id != owner,
        first_owned(q, owner) < q.len() ==> q[first_owned(q, owner)].id == owner,
    decreases q.len(),
{
    if q.len() == 0 || q[0].id == owner {
    } else {
        let t = q.drop_first();
        lemma_first_owned(t, owner);
        let p = first_owned(q, owner);
        assert forall|j: int| 0 <= j < p implies (#[trigger] q[j]).id != owner by {
            if j > 0 {
                assert(q[j] == t[j - 1]);
            }
        }
        if p < q.len() {
            assert(q[p] == t[p - 1]);
        }
    }
}

/// A position `j` that no order of `owner` precedes, and that holds one of
/// the owner's orders or is the length, is `first_owned`.
pub proof fn lemma_first_owned_is(q: Seq<IdentifiableOrder>, owner: u64, j: int)
    requires
        0 <= j <= q.len(),
        forall|i: int| 0 <= i < j ==> (#[trigger] q[i]).id != owner,
        j < q.len() ==> q[j].id == owner,
    ensures
        first_owned(q, owner) == j,
{
    lemma_first_owned(q, owner);
    let p = first_owned(q, owner);
    if p < j {
        assert(q[p].id == owner);
    } else if p > j {
        assert(q[j].id != owner);
    }
}

/// Two arrangements of the same entries are equal when the keys of one ascend
/// and the keys of the other strictly ascend.
pub proof fn lemma_sorted_arrangement_unique(r: Seq<Level>, t: Seq<Level>)
    requires
        r.to_multiset() == t.to_multiset(),
        keys_ascending(r),
        keys_strictly_ascending(t),
    ensures
        r == t,
    decreases r.len(),
{
    to_multiset_len(r);
    to_multiset_len(t);
    if r.len() == 0 {
        assert(r =~= t);
    } else {
        let n = r.len() as int;
        let x = t[n - 1];
        let y = r[n - 1];
        assert(t.contains(x));
        to_multiset_contains(t, x);
        to_multiset_contains(r, x);
        let j = choose|j: int| 0 <= j < r.len() && r[j] == x;
        assert(r.contains(y));
        to_multiset_contains(r, y);
        to_multiset_contains(t, y);
        let i = choose|i: int| 0 <= i < t.len() && t[i] == y;
        assert(key_le(r[j].0, r[n - 1].0) || j == n - 1);
        if i < n - 1 {
            assert(key_lt(t[i].0, t[n - 1].0));
        }
        assert(x == y);
        to_multiset_remove(r, n - 1);
        to_multiset_remove(t, n - 1);
        let r1 = r.drop_last();
        let t1 = t.drop_last();
        assert(r.remove(n - 1) =~= r1);
        assert(t.remove(n - 1) =~= t1);
        assert forall|a: int, b: int| 0 <= a < b < r1.len() implies key_le(
            (#[trigger] r1[a]).0,
            (#[trigger] r1[b]).0,
        ) by {
            assert(r1[a] == r[a]);
            assert(r1[b] == r[b]);
        }
        assert forall|a: int, b: int| 0 <= a < b < t1.len() implies key_lt(
            (#[trigger] t1[a]).0,
            (#[trigger] t1[b]).0,
        ) by {
            assert(t1[a] == t[a]);
            assert(t1[b] == t[b]);
        }
        lemma_sorted_arrangement_unique(r1, t1);
        assert(r =~= r1.push(y));
        assert(t =~= t1.push(x));
    }
}

/// Placing an order keeps a side well formed, when the order has quantity
/// left and the price is valid.
pub proof fn lemma_insert_level_wf(s: Seq<Level>, k: PriceKey, o: IdentifiableOrder)
    requires
        side_wf(s),
        key_valid(k),
        o.qty > 0,
    ensures
        side_wf(insert_level(s, k, o)),
{
    lemma_levels_below(s, k);
    let p = levels_below(s, k);
    let r = insert_level(s, k, o);
    if p < s.len() && s[p].0 == k {
        let q = s[p].1.push(o);
        assert forall|j: int| 0 <= j < q.len() implies (#[trigger] q[j]).qty > 0 by {
            if j < s[p].1.len() {
                assert(q[j] == s[p].1[j]);
            }
        }
        assert forall|i: int| 0 <= i < r.len() implies queue_wf((#[trigger] r[i]).1) by {
            if i != p {
                assert(r[i] == s[i]);
            }
        }
        assert forall|i: int| 0 <= i < r.len() implies key_valid((#[trigger] r[i]).0) by {
            assert(r[i].0 == s[i].0);
        }
        assert forall|i: int, j: int| 0 <= i < j < r.len() implies key_lt(
            (#[trigger] r[i]).0,
            (#[trigger] r[j]).0,
        ) by {
            assert(r[i].0 == s[i].0);
            assert(r[j].0 == s[j].0);
        }
    } else {
        let q = seq![o];
        assert(queue_wf(q));
        assert forall|i: int| 0 <= i < r.len() implies key_valid((#[trigger] r[i]).0) && queue_wf(
            r[i].1,
        ) by {
            if i < p {
                assert(r[i] == s[i]);
            } else if i > p {
                assert(r[i] == s[i - 1]);
            }
        }
        assert forall|i: int, j: int| 0 <= i < j < r.len() implies key_lt(
            (#[trigger] r[i]).0,
            (#[trigger] r[j]).0,
        ) by {
            let a = if i < p { s[i] } else if i > p { s[i - 1] } else { (k, q) };
            let b = if j < p { s[j] } else if j > p { s[j - 1] } else { (k, q) };
            assert(r[i] == a);
            assert(r[j] == b);
            if j > p {
                assert(key_le(k, s[j - 1].0));
                assert(s[j - 1].0 != k);
            }
        }
    }
}

/// Adding a level with a new price at the end of a side and then arranging
/// the entries by ascending key gives `insert_level`.
pub proof fn lemma_insert_by_sorting(
    s: Seq<Level>,
    k: PriceKey,
    o: IdentifiableOrder,
    sorted: Seq<Level>,
)
    requires
        side_wf(s),
        key_valid(k),
        o.qty > 0,
        !has_key(s, k),
        sorted.to_multiset() == s.push((k, seq![o])).to_multiset(),
        keys_ascending(sorted),
    ensures
        sorted == insert_level(s, k, o),
{
    lemma_level_absent(s, k);
    lemma_insert_level_wf(s, k, o);
    let p = levels_below(s, k);
    let t = s.insert(p, (k, seq![o]));
    assert(t == insert_level(s, k, o));
    to_multiset_insert(s, p, (k, seq![o]));
    to_multiset_build(s, (k, seq![o]));
    lemma_sorted_arrangement_unique(sorted, t);
}

/// Cancelling keeps a side well formed.
pub proof fn lemma_cancel_level_wf(s: Seq<Level>, k: PriceKey, owner: u64)
    requires
        side_wf(s),
    ensures
        side_wf(cancel_level(s, k, owner)),
{
    lemma_levels_below(s, k);
    let p = levels_below(s, k);
    let r = cancel_level(s, k, owner);
    if has_order(s, k, owner) {
        if s[p].1.len() == 1 {
            lemma_remove_keeps_wf(s, p);
        } else {
            let j = first_owned(s[p].1, owner);
            lemma_first_owned(s[p].1, owner);
            let q = s[p].1.remove(j);
            assert forall|a: int| 0 <= a < q.len() implies (#[trigger] q[a]).qty > 0 by {
                if a < j {
                    assert(q[a] == s[p].1[a]);
                } else {
                    assert(q[a] == s[p].1[a + 1]);
                }
            }
            lemma_update_keeps_wf(s, p, q);
        }
    }
}

/// Taking one level out keeps a side well formed.
pub proof fn lemma_remove_keeps_wf(s: Seq<Level>, p: int)
    requires
        side_wf(s),
        0 <= p < s.len(),
    ensures
        side_wf(s.remove(p)),
{
    let r = s.remove(p);
    assert forall|i: int| 0 <= i < r.len() implies key_valid((#[trigger] r[i]).0) && queue_wf(
        r[i].1,
    ) by {
        if i < p {
            assert(r[i] == s[i]);
        } else {
            assert(r[i] == s[i + 1]);
        }
    }
    assert forall|i: int, j: int| 0 <= i < j < r.len() implies key_lt(
        (#[trigger] r[i]).0,
        (#[trigger] r[j]).0,
    ) by {
        let a = if i < p { i } else { i + 1 };
        let b = if j < p { j } else { j + 1 };
        assert(r[i] == s[a]);
        assert(r[j] == s[b]);
    }
}

/// Replacing the queue of one level by another well-formed queue keeps a side
/// well formed.
pub proof fn lemma_update_keeps_wf(s: Seq<Level>, p: int, q: Seq<IdentifiableOrder>)
    requires
        side_wf(s),
        0 <= p < s.len(),
        queue_wf(q),
    ensures
        side_wf(s.update(p, (s[p].0, q))),
{
    let r = s.update(p, (s[p].0, q));
    assert forall|i: int| 0 <= i < r.len() implies key_valid((#[trigger] r[i]).0) && queue_wf(
        r[i].1,
    ) by {
        if i != p {
            assert(r[i] == s[i]);
        }
    }
    assert forall|i: int, j: int| 0 <= i < j < r.len() implies key_lt(
        (#[trigger] r[i]).0,
        (#[trigger] r[j]).0,
    ) by {
        assert(r[i].0 == s[i].0);
        assert(r[j].0 == s[j].0);
    }
}

/// The quantity of a queue is that of its front order and that of the rest.
pub proof fn lemma_queue_qty_front(q: Seq<IdentifiableOrder>)
    requires
        q.len() > 0,
    ensures
        queue_qty(q) == q[0].qty + queue_qty(q.drop_first()),
    decreases q.len(),
{
    if q.len() == 1 {
        assert(q.drop_last() =~= Seq::<IdentifiableOrder>::empty());
        assert(q.drop_first() =~= Seq::<IdentifiableOrder>::empty());
    } else {
        lemma_queue_qty_front(q.drop_last());
        assert(q.drop_first().drop_last() =~= q.drop_last().drop_first());
        assert(q.drop_last()[0] == q[0]);
        assert(q.drop_first().last() == q.last());
    }
}

/// A well-formed queue holds quantity.
pub proof fn lemma_queue_qty_positive(q: Seq<IdentifiableOrder>)
    requires
        queue_wf(q),
    ensures
        queue_qty(q) > 0,
{
    lemma_queue_qty_front(q);
}

/// A queue holds at least the quantity of each of its leading parts.
pub proof fn lemma_queue_qty_take(q: Seq<IdentifiableOrder>, j: int)
    requires
        0 <= j <= q.len(),
    ensures
        queue_qty(q.take(j)) <= queue_qty(q),
    decreases q.len() - j,
{
    if j == q.len() {
        assert(q.take(j) =~= q);
    } else {
        lemma_queue_qty_take(q, j + 1);
        assert(q.take(j + 1).drop_last() =~= q.take(j));
    }
}

/// Taking a level out of a side takes its quantity out.
pub proof fn lemma_side_qty_remove(s: Seq<Level>, i: int)
    requires
        0 <= i < s.len(),
    ensures
        side_qty(s) == side_qty(s.remove(i)) + queue_qty(s[i].1),
    decreases s.len(),
{
    if i == s.len() - 1 {
        assert(s.remove(i) =~= s.drop_last());
    } else {
        lemma_side_qty_remove(s.drop_last(), i);
        assert(s.remove(i).drop_last() =~= s.drop_last().remove(i));
        assert(s.remove(i).last() == s.last());
        assert(s.drop_last()[i] == s[i]);
    }
}

/// Adding a level to a side adds its quantity.
pub proof fn lemma_side_qty_insert(s: Seq<Level>, i: int, l: Level)
    requires
        0 <= i <= s.len(),
    ensures
        side_qty(s.insert(i, l)) == side_qty(s) + queue_qty(l.1),
{
    let t = s.insert(i, l);
    lemma_side_qty_remove(t, i);
    assert(t.remove(i) =~= s);
}

/// Replacing a level of a side exchanges its quantity for the new one.
pub proof fn lemma_side_qty_update(s: Seq<Level>, i: int, l: Level)
    requires
        0 <= i < s.len(),
    ensures
        side_qty(s.update(i, l)) + queue_qty(s[i].1) == side_qty(s) + queue_qty(l.1),
{
    let t = s.update(i, l);
    lemma_side_qty_remove(t, i);
    lemma_side_qty_remove(s, i);
    assert(t.remove(i) =~= s.remove(i));
}

/// A well-formed side without quantity has no levels.
pub proof fn lemma_side_qty_zero(s: Seq<Level>)
    requires
        side_wf(s),
        side_qty(s) == 0,
    ensures
        s.len() == 0,
{
    if s.len() > 0 {
        lemma_queue_qty_positive(s.last().1);
    }
}

/// Placing an order adds its quantity to the side.
pub proof fn lemma_insert_level_qty(s: Seq<Level>, k: PriceKey, o: IdentifiableOrder)
    requires
        keys_strictly_ascending(s),
    ensures
        side_qty(insert_level(s, k, o)) == side_qty(s) + o.qty,
{
    lemma_levels_below(s, k);
    let p = levels_below(s, k);
    if p < s.len() && s[p].0 == k {
        let q = s[p].1.push(o);
        lemma_side_qty_update(s, p, (k, q));
        assert(q.drop_last() =~= s[p].1);
        assert(q.last() == o);
        assert(queue_qty(q) == queue_qty(s[p].1) + o.qty);
    } else {
        let q = seq![o];
        lemma_side_qty_insert(s, p, (k, q));
        assert(q.drop_last() =~= Seq::<IdentifiableOrder>::empty());
        assert(q.last() == o);
        assert(queue_qty(Seq::<IdentifiableOrder>::empty()) == 0);
        assert(queue_qty(q) == o.qty);
    }
}

} // verus!
