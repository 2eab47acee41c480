//! Limit orders and one side of the book.

use crate::orderbook::fill::{lemma_log_push, Fill, FillEvent};
use crate::orderbook::identifiable_order::IdentifiableOrder;
use crate::orderbook::levels::{
    has_key, level_entries, map_get_index, map_get_index_mut, map_get_mut, map_insert, map_len,
    map_new, map_shift_remove, map_sort_keys, Level, LevelMap,
};
use crate::orderbook::matching::{best_index, marketable, match_levels, reachable_qty};
use crate::orderbook::side::{
    cancel_level, first_owned, has_order, lemma_cancel_level_wf, lemma_first_owned_is,
    lemma_insert_by_sorting, lemma_insert_level_wf, lemma_level_absent, lemma_level_position,
    lemma_levels_below, lemma_queue_qty_take, lemma_remove_keeps_wf, lemma_update_keeps_wf,
    levels_below, queue_qty, queue_wf, remove_level, rest_order, saturated, side_wf,
};
use crate::price::{key_lt, opt_key, Price, PriceKey};
use crate::traits::matching_engine::OrderType;
use std::collections::VecDeque;
use vstd::prelude::*;

verus! {

/// A limit order: a price and the order that is to rest or trade at it.
#[derive(Clone, Copy, Debug, PartialEq, Eq, Structural)]
pub struct Order {
    pub price: Price,
    pub identifiable_order: IdentifiableOrder,
}

impl Order {
    /// The order `identifiable_order` at the limit `price`.
    pub fn new(price: Price, identifiable_order: IdentifiableOrder) -> (o: Order)
        ensures
            o == (Order { price, identifiable_order }),
    {
        Order { price, identifiable_order }
    }

    /// The limit price.
    pub fn get_price(&self) -> (p: &Price)
        ensures
            *p == self.price,
    {
        &self.price
    }

    /// The owner and open quantity, for change in place. The price stays.
    pub fn get_order_mut(&mut self) -> (o: &mut IdentifiableOrder)
        ensures
            *o == old(self).identifiable_order,
            *final(self) == (Order { price: old(self).price, identifiable_order: *final(o) }),
    {
        &mut self.identifiable_order
    }

    /// The owner and open quantity.
    pub fn get_order(&self) -> (o: &IdentifiableOrder)
        ensures
            *o == self.identifiable_order,
    {
        &self.identifiable_order
    }
}

/// One side of the book for one instrument: its price levels in ascending
/// price order, each a queue of orders in time priority with the oldest in
/// front.
#[derive(Debug)]
pub struct OrderList {
    order_list: LevelMap,
}

impl View for OrderList {
    type V = Seq<Level>;

    closed spec fn view(&self) -> Seq<Level> {
        level_entries(self.order_list)
    }
}

impl OrderList {
    /// The invariant of a side, over its view.
    pub open spec fn wf(&self) -> bool {
        side_wf(self@)
    }

    /// A side without levels.
    pub fn new() -> (side: OrderList)
        ensures
            side@ == Seq::<Level>::empty(),
            side.wf(),
    {
        OrderList { order_list: map_new() }
    }

    /// The number of price levels.
    pub fn len(&self) -> (n: usize)
        ensures
            n == self@.len(),
    {
        map_len(&self.order_list)
    }

    /// Inserts a limit order at its price, behind every order already resting
    /// there. An order without quantity is not inserted.
    pub fn insert_order(&mut self, order: Order)
        requires
            old(self).wf(),
        ensures
            final(self).wf(),
            final(self)@ == rest_order(old(self)@, order.price@, order.identifiable_order),
    {
        if order.identifiable_order.qty == 0 {
            return ;
        }
        let key = order.price.key();
        let ghost before = self@;
        match map_get_mut(&mut self.order_list, &key) {
            Some(orders_on_price_level) => {
                orders_on_price_level.push_back(order.identifiable_order);
            },
            None => {
                let mut new_fifo_queue = VecDeque::with_capacity(2);
                new_fifo_queue.push_back(order.identifiable_order);
                map_insert(&mut self.order_list, key, new_fifo_queue);
                map_sort_keys(&mut self.order_list);
            },
        }
        proof {
            lemma_insert_level_wf(before, key, order.identifiable_order);
            if has_key(before, key) {
                assert forall|i: int| 0 <= i < before.len() && (#[trigger] before[i]).0
                    == key implies i == levels_below(before, key) by {
                    lemma_level_position(before, key, i);
                }
            } else {
                assert(seq![order.identifiable_order] =~= Seq::<IdentifiableOrder>::empty().push(
                    order.identifiable_order,
                ));
                lemma_insert_by_sorting(before, key, order.identifiable_order, self@);
            }
        }
    }
}

impl OrderList {
    /// Matches an incoming order of `need` units against this side, as
    /// `match_levels` says: the side is left as the outcome's levels, the
    /// outcome's fills are appended to `fills` in the order in which they were
    /// made, and the filled quantity is returned.
    pub fn match_orders(
        &mut self,
        taker: OrderType,
        taker_owner: u64,
        limit: Option<Price>,
        need: u64,
        fills: &mut Vec<Fill>,
    ) -> (filled: u64)
        requires
            old(self).wf(),
        ensures
            final(self).wf(),
            final(self)@ == match_levels(
                old(self)@,
                taker,
                taker_owner,
                opt_key(limit),
                need as nat,
            ).levels,
            filled == match_levels(
                old(self)@,
                taker,
                taker_owner,
                opt_key(limit),
                need as nat,
            ).filled,
            final(fills).deep_view() == old(fills).deep_view() + match_levels(
                old(self)@,
                taker,
                taker_owner,
                opt_key(limit),
                need as nat,
            ).fills,
            old(fills)@.is_prefix_of(final(fills)@),
            filled <= need,
    {
        let ghost start = self@;
        let ghost kept = fills@;
        let ghost lim = opt_key(limit);
        let ghost reported = fills.deep_view();
        let ghost goal = match_levels(start, taker, taker_owner, lim, need as nat);
        let ghost mut emitted: Seq<FillEvent> = Seq::empty();
        let mut filled: u64 = 0;
        assert(reported + emitted =~= reported);
        assert(emitted + goal.fills =~= goal.fills);
        loop
            invariant
                self.wf(),
                filled <= need,
                lim == opt_key(limit),
                goal == match_levels(start, taker, taker_owner, lim, need as nat),
                fills.deep_view() == reported + emitted,
                kept.is_prefix_of(fills@),
                goal.levels == match_levels(
                    self@,
                    taker,
                    taker_owner,
                    lim,
                    (need - filled) as nat,
                ).levels,
                goal.fills == emitted + match_levels(
                    self@,
                    taker,
                    taker_owner,
                    lim,
                    (need - filled) as nat,
                ).fills,
                goal.filled == filled + match_levels(
                    self@,
                    taker,
                    taker_owner,
                    lim,
                    (need - filled) as nat,
                ).filled,
            ensures
                self.wf(),
                filled <= need,
                kept.is_prefix_of(fills@),
                fills.deep_view() == reported + goal.fills,
                self@ == goal.levels,
                filled == goal.filled,
            decreases need - filled,
        {
            let ghost cur = self@;
            let ghost log = *fills;
            let ghost rest_need = (need - filled) as nat;
            let ghost step = match_levels(cur, taker, taker_owner, lim, rest_need);
            assert(emitted + Seq::<FillEvent>::empty() =~= emitted);
            let n = self.len();
            if filled >= need || n == 0 {
                break ;
            }
            let b: usize = match taker {
                OrderType::Buy => 0,
                OrderType::Sell => n - 1,
            };
            let mut key: PriceKey = (0, 0);
            let mut stop = false;
            let mut emptied = false;
            let ghost mut event = FillEvent { taker_owner, maker_owner: 0, price: key, qty: 0 };
            let ghost mut queue: Seq<IdentifiableOrder> = Seq::empty();
            match map_get_index_mut(&mut self.order_list, b) {
                Some((k, level)) => {
                    key = *k;
                    proof {
                        queue = level@;
                    }
                    if !key_marketable(key, taker, &limit) {
                        stop = true;
                    } else {
                        assert(queue_wf(queue));
                        let head = level[0];
                        let want = need - filled;
                        let take = if head.qty <= want {
                            head.qty
                        } else {
                            want
                        };
                        let fill = Fill {
                            taker_owner,
                            maker_owner: head.id,
                            price: Price::new(key.0, key.1),
                            qty: take,
                        };
                        level.pop_front();
                        if head.qty <= want {
                            emptied = level.len() == 0;
                            assert(level@ =~= queue.drop_first());
                        } else {
                            level.push_front(IdentifiableOrder::new(head.id, head.qty - want));
                            assert(level@ =~= queue.update(
                                0,
                                IdentifiableOrder { id: head.id, qty: (head.qty - want) as u64 },
                            ));
                        }
                        filled = filled + take;
                        fills.push(fill);
                        proof {
                            event = fill@;
                            lemma_log_push(log, *fills, fill);
                        }
                    }
                },
                None => {
                    stop = true;
                },
            }
            if stop {
                break ;
            }
            let ghost mid = self@;
            if emptied {
                map_shift_remove(&mut self.order_list, &key);
            }
            proof {
                let head = queue[0];
                assert(mid == cur.update(b as int, (key, mid[b as int].1)));
                assert(reported + emitted.push(event) =~= (reported + emitted).push(event));
                if head.qty <= rest_need {
                    if emptied {
                        assert forall|i: int| 0 <= i < mid.len() && (#[trigger] mid[i]).0
                            == key implies i == b by {
                            if i < b {
                                assert(key_lt(cur[i].0, cur[b as int].0));
                            } else if i > b {
                                assert(key_lt(cur[b as int].0, cur[i].0));
                            }
                        }
                        assert(self@ =~= cur.remove(b as int));
                        lemma_remove_keeps_wf(cur, b as int);
                    } else {
                        lemma_update_keeps_wf(cur, b as int, queue.drop_first());
                    }
                    assert(emitted.push(event) + match_levels(
                        self@,
                        taker,
                        taker_owner,
                        lim,
                        (rest_need - head.qty) as nat,
                    ).fills =~= emitted + step.fills);
                } else {
                    let reduced = IdentifiableOrder {
                        id: head.id,
                        qty: (head.qty - rest_need) as u64,
                    };
                    lemma_update_keeps_wf(cur, b as int, queue.update(0, reduced));
                    assert(emitted.push(event) + Seq::<FillEvent>::empty() =~= emitted
                        + step.fills);
                }
                emitted = emitted.push(event);
            }
        }
        filled
    }
}

impl OrderList {
    /// Cancels the oldest order of `owner_id` at `price`, as `cancel_level`
    /// says, and tells whether there was one.
    pub fn cancel(&mut self, price: &Price, owner_id: u64) -> (removed: bool)
        requires
            old(self).wf(),
        ensures
            final(self).wf(),
            removed == has_order(old(self)@, price@, owner_id),
            final(self)@ == cancel_level(old(self)@, price@, owner_id),
            !removed ==> final(self)@ == old(self)@,
    {
        let key = price.key();
        let ghost before = self@;
        let mut removed = false;
        let mut emptied = false;
        match map_get_mut(&mut self.order_list, &key) {
            Some(orders_on_price_level) => {
                let i = position_of_owner(orders_on_price_level, owner_id);
                if i < orders_on_price_level.len() {
                    orders_on_price_level.remove(i);
                    removed = true;
                    emptied = orders_on_price_level.len() == 0;
                }
            },
            None => {},
        }
        let ghost mid = self@;
        if emptied {
            map_shift_remove(&mut self.order_list, &key);
        }
        proof {
            lemma_cancel_level_wf(before, key, owner_id);
            lemma_levels_below(before, key);
            let p = levels_below(before, key);
            if has_key(before, key) {
                assert forall|i: int| 0 <= i < before.len() && (#[trigger] before[i]).0
                    == key implies i == p by {
                    lemma_level_position(before, key, i);
                }
                assert(mid =~= before.update(p, (key, mid[p].1)));
                if emptied {
                    assert forall|i: int| 0 <= i < mid.len() && (#[trigger] mid[i]).0
                        == key implies i == p by {
                        assert(mid[i].0 == before[i].0);
                    }
                    assert(self@ =~= before.remove(p));
                }
            } else {
                lemma_level_absent(before, key);
            }
        }
        removed
    }

    /// Takes the whole level at `price` out of the side and returns its
    /// queue, or returns `None` and changes nothing where no order rests at
    /// that price.
    pub fn remove_level(&mut self, price: &Price) -> (r: Option<VecDeque<IdentifiableOrder>>)
        requires
            old(self).wf(),
        ensures
            final(self).wf(),
            final(self)@ == remove_level(old(self)@, price@),
            match r {
                Some(q) => has_key(old(self)@, price@) && q@ == old(self)@[levels_below(
                    old(self)@,
                    price@,
                )].1,
                None => !has_key(old(self)@, price@),
            },
    {
        let key = price.key();
        let ghost before = self@;
        let r = map_shift_remove(&mut self.order_list, &key);
        proof {
            lemma_levels_below(before, key);
            let p = levels_below(before, key);
            if has_key(before, key) {
                assert forall|i: int| 0 <= i < before.len() && (#[trigger] before[i]).0
                    == key implies i == p by {
                    lemma_level_position(before, key, i);
                }
                lemma_remove_keeps_wf(before, p);
            } else {
                lemma_level_absent(before, key);
            }
        }
        r
    }

    /// The level at position `i` in ascending price order: its price and its
    /// queue, or `None` where the side has no such level.
    pub fn level_at(&self, i: usize) -> (r: Option<(Price, &VecDeque<IdentifiableOrder>)>)
        requires
            self.wf(),
        ensures
            match r {
                Some((price, queue)) => i < self@.len() && price@ == self@[i as int].0 && queue@
                    == self@[i as int].1,
                None => i >= self@.len(),
            },
    {
        match map_get_index(&self.order_list, i) {
            Some((k, v)) => Some((Price::new(k.0, k.1), v)),
            None => None,
        }
    }
}

impl OrderList {
    /// The best level for an incoming order of side `taker`: the lowest
    /// priced for a buy, the highest priced for a sell.
    pub fn best(&self, taker: OrderType) -> (r: Option<(Price, &VecDeque<IdentifiableOrder>)>)
        requires
            self.wf(),
        ensures
            match r {
                Some((price, queue)) => self@.len() > 0 && price@ == self@[best_index(
                    self@,
                    taker,
                )].0 && queue@ == self@[best_index(self@, taker)].1,
                None => self@.len() == 0,
            },
    {
        let n = self.len();
        if n == 0 {
            None
        } else {
            match taker {
                OrderType::Buy => self.level_at(0),
                OrderType::Sell => self.level_at(n - 1),
            }
        }
    }

    /// Whether an incoming order of side `taker` with the limit `limit`
    /// could trade with the best level of this side.
    pub fn crossed_by(&self, taker: OrderType, limit: &Price) -> (r: bool)
        requires
            self.wf(),
        ensures
            r == (self@.len() > 0 && marketable(
                self@[best_index(self@, taker)].0,
                taker,
                Some(limit@),
            )),
    {
        match self.best(taker) {
            Some((price, _)) => key_marketable(price.key(), taker, &Some(*limit)),
            None => false,
        }
    }
}

/// The part of a side that an incoming order has not yet visited after it
/// has gone through the `t` best levels.
pub open spec fn beyond_best(levels: Seq<Level>, taker: OrderType, t: int) -> Seq<Level> {
    match taker {
        OrderType::Buy => levels.subrange(t, levels.len() as int),
        OrderType::Sell => levels.subrange(0, levels.len() - t),
    }
}

impl OrderList {
    /// Whether an incoming order of `need` units could be filled in full by
    /// what rests at the levels marketable for it. The side is not changed.
    pub fn can_fill(&self, taker: OrderType, limit: Option<Price>, need: u64) -> (r: bool)
        requires
            self.wf(),
        ensures
            r == (need <= reachable_qty(self@, taker, opt_key(limit))),
    {
        if need == 0 {
            return true;
        }
        let ghost lim = opt_key(limit);
        let n = self.len();
        let mut found: u64 = 0;
        let mut t: usize = 0;
        assert(beyond_best(self@, taker, 0) =~= self@);
        while t < n
            invariant
                self.wf(),
                n == self@.len(),
                t <= n,
                found < need,
                lim == opt_key(limit),
                reachable_qty(self@, taker, lim) == found + reachable_qty(
                    beyond_best(self@, taker, t as int),
                    taker,
                    lim,
                ),
            decreases n - t,
        {
            let at = match taker {
                OrderType::Buy => t,
                OrderType::Sell => n - 1 - t,
            };
            let ghost rest = beyond_best(self@, taker, t as int);
            assert(rest.len() == n - t);
            assert(rest[best_index(rest, taker)] == self@[at as int]);
            assert(rest.remove(best_index(rest, taker)) =~= beyond_best(
                self@,
                taker,
                t as int + 1,
            ));
            match self.level_at(at) {
                Some((price, queue)) => {
                    if !key_marketable(price.key(), taker, &limit) {
                        return false;
                    }
                    let ghost before = found;
                    let m = queue.len();
                    let mut j: usize = 0;
                    assert(queue_wf(queue@));
                    assert(reachable_qty(rest, taker, lim) == queue_qty(queue@) + reachable_qty(
                        beyond_best(self@, taker, t as int + 1),
                        taker,
                        lim,
                    ));
                    assert(queue@.take(0) =~= Seq::<IdentifiableOrder>::empty());
                    while j < m
                        invariant
                            j <= m,
                            m == queue@.len(),
                            found < need,
                            found == before + queue_qty(queue@.take(j as int)),
                            before + queue_qty(queue@) <= reachable_qty(self@, taker, lim),
                            lim == opt_key(limit),
                        decreases m - j,
                    {
                        let qty = queue[j].qty;
                        proof {
                            assert(queue@.take(j as int + 1).drop_last() =~= queue@.take(j as int));
                            lemma_queue_qty_take(queue@, j as int + 1);
                            assert(queue@.take(j as int + 1).last() == queue@[j as int]);
                        }
                        if qty >= need - found {
                            return true;
                        }
                        found = found + qty;
                        j = j + 1;
                    }
                    assert(queue@.take(m as int) =~= queue@);
                },
                None => {},
            }
            t = t + 1;
        }
        false
    }
}

impl Default for OrderList {
    /// A side without levels.
    fn default() -> (side: OrderList)
        ensures
            side@ == Seq::<Level>::empty(),
            side.wf(),
    {
        OrderList::new()
    }
}

/// The position of the oldest order of `owner` in a queue, or the queue's
/// length where the owner has none there.
fn position_of_owner(queue: &VecDeque<IdentifiableOrder>, owner: u64) -> (i: usize)
    ensures
        i == first_owned(queue@, owner),
        i <= queue@.len(),
{
    let n = queue.len();
    let mut i: usize = 0;
    while i < n && queue[i].id != owner
        invariant
            i <= n,
            n == queue@.len(),
            forall|j: int| 0 <= j < i ==> (#[trigger] queue@[j]).id != owner,
        decreases n - i,
    {
        i = i + 1;
    }
    proof {
        lemma_first_owned_is(queue@, owner, i as int);
    }
    i
}

/// The quantity resting in a queue, saturating at the largest `u64`.
pub fn queue_total(queue: &VecDeque<IdentifiableOrder>) -> (total: u64)
    ensures
        total == saturated(queue_qty(queue@)),
{
    let n = queue.len();
    let mut total: u64 = 0;
    let mut i: usize = 0;
    while i < n
        invariant
            i <= n,
            n == queue@.len(),
            total == saturated(queue_qty(queue@.take(i as int))),
        decreases n - i,
    {
        proof {
            assert(queue@.take(i as int + 1).drop_last() =~= queue@.take(i as int));
        }
        total = total.saturating_add(queue[i].qty);
        i = i + 1;
    }
    proof {
        assert(queue@.take(n as int) =~= queue@);
    }
    total
}

/// Whether a level priced `key` may trade with an incoming order under
/// `limit`.
fn key_marketable(key: PriceKey, taker: OrderType, limit: &Option<Price>) -> (r: bool)
    ensures
        r == marketable(key, taker, opt_key(*limit)),
{
    match limit {
        None => true,
        Some(p) => {
            let l = p.key();
            match taker {
                OrderType::Buy => key.0 < l.0 || (key.0 == l.0 && key.1 <= l.1),
                OrderType::Sell => l.0 < key.0 || (l.0 == key.0 && l.1 <= key.1),
            }
        },
    }
}

} // verus!
