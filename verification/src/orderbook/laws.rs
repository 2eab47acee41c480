//! Laws of the book: what holds of every well-formed book and every order,
//! proved from the definitions that the operations' contracts use.

use crate::orderbook::fill::FillEvent;
use crate::orderbook::identifiable_order::IdentifiableOrder;
use crate::orderbook::levels::{has_key, Level};
use crate::orderbook::matching::{
    best_index, best_queue_len, lemma_match_conserves, lemma_match_fills_reachable,
    lemma_match_wf, lemma_reachable_all, marketable, match_levels,
};
use crate::orderbook::orders::Order;
use crate::orderbook::side::{
    cancel_level, first_owned, has_order, insert_level, keys_strictly_ascending,
    lemma_cancel_level_wf, lemma_first_owned, lemma_insert_level_qty, lemma_insert_level_wf,
    lemma_level_absent, lemma_level_position, lemma_levels_below, lemma_remove_keeps_wf,
    lemma_side_qty_zero, lemma_update_keeps_wf, levels_below, remove_level, rest_order, side_qty,
    side_wf,
};
use crate::orderbook::{
    book_after_limit, book_wf, book_with_resting, crosses, limit_match, opposing_side,
    resting_side, uncrossed, with_opposing_side, with_resting_side, BookView,
};
use crate::price::{key_le, key_lt, key_valid, PriceKey};
use crate::traits::matching_engine::OrderType;
use vstd::prelude::*;

verus! {

/// The side left after a sequence of market orders of one type have been
/// matched against it one after the other.
pub open spec fn after_market_orders(
    levels: Seq<Level>,
    taker: OrderType,
    orders: Seq<IdentifiableOrder>,
) -> Seq<Level>
    decreases orders.len(),
{
    if orders.len() == 0 {
        levels
    } else {
        after_market_orders(
            match_levels(levels, taker, orders[0].id, None, orders[0].qty as nat).levels,
            taker,
            orders.drop_first(),
        )
    }
}

/// The quantity that a sequence of orders asks for.
pub open spec fn orders_qty(orders: Seq<IdentifiableOrder>) -> nat
    decreases orders.len(),
{
    if orders.len() == 0 {
        0
    } else {
        orders[0].qty as nat + orders_qty(orders.drop_first())
    }
}

/// The side built from an empty one by placing limit orders one after the
/// other, each given as its price and the order.
pub open spec fn after_inserts(placed: Seq<(PriceKey, IdentifiableOrder)>) -> Seq<Level>
    decreases placed.len(),
{
    if placed.len() == 0 {
        Seq::empty()
    } else {
        rest_order(after_inserts(placed.drop_last()), placed.last().0, placed.last().1)
    }
}

/// The quantity that a sequence of placed limit orders brings to the book.
pub open spec fn placed_qty(placed: Seq<(PriceKey, IdentifiableOrder)>) -> nat
    decreases placed.len(),
{
    if placed.len() == 0 {
        0
    } else {
        placed_qty(placed.drop_last()) + placed.last().1.qty as nat
    }
}

/// Whether every placed order has a valid price.
pub open spec fn placeable(placed: Seq<(PriceKey, IdentifiableOrder)>) -> bool {
    forall|i: int| 0 <= i < placed.len() ==> key_valid((#[trigger] placed[i]).0)
}

/// Market orders that ask in total for at least what rests on a well-formed
/// side leave that side empty.
pub proof fn lemma_market_orders_empty_side(
    levels: Seq<Level>,
    taker: OrderType,
    orders: Seq<IdentifiableOrder>,
)
    requires
        side_wf(levels),
        orders_qty(orders) >= side_qty(levels),
    ensures
        after_market_orders(levels, taker, orders).len() == 0,
    decreases orders.len(),
{
    if orders.len() == 0 {
        lemma_side_qty_zero(levels);
    } else {
        let need = orders[0].qty as nat;
        lemma_match_wf(levels, taker, orders[0].id, None, need);
        lemma_match_conserves(levels, taker, orders[0].id, None, need);
        lemma_match_fills_reachable(levels, taker, orders[0].id, None, need);
        lemma_reachable_all(levels, taker);
        lemma_market_orders_empty_side(
            match_levels(levels, taker, orders[0].id, None, need).levels,
            taker,
            orders.drop_first(),
        );
    }
}

/// Placing limit orders builds a well-formed side that holds exactly the
/// quantity placed.
pub proof fn lemma_after_inserts(placed: Seq<(PriceKey, IdentifiableOrder)>)
    requires
        placeable(placed),
    ensures
        side_wf(after_inserts(placed)),
        side_qty(after_inserts(placed)) == placed_qty(placed),
    decreases placed.len(),
{
    if placed.len() > 0 {
        let init = placed.drop_last();
        assert forall|i: int| 0 <= i < init.len() implies key_valid((#[trigger] init[i]).0) by {
            assert(init[i] == placed[i]);
        }
        lemma_after_inserts(init);
        if placed.last().1.qty > 0 {
            lemma_insert_level_wf(after_inserts(init), placed.last().0, placed.last().1);
            lemma_insert_level_qty(after_inserts(init), placed.last().0, placed.last().1);
        }
    }
}

/// Round trip: a side built by placing limit orders is empty again after
/// market orders from the other side that ask in total for the quantity
/// placed.
pub proof fn lemma_round_trip(
    placed: Seq<(PriceKey, IdentifiableOrder)>,
    taker: OrderType,
    orders: Seq<IdentifiableOrder>,
)
    requires
        placeable(placed),
        orders_qty(orders) == placed_qty(placed),
    ensures
        after_market_orders(after_inserts(placed), taker, orders).len() == 0,
{
    lemma_after_inserts(placed);
    lemma_market_orders_empty_side(after_inserts(placed), taker, orders);
}

/// After a match the best price left on the side is no better for the
/// incoming order than the best price before: asks do not get cheaper, bids
/// do not get dearer.
pub proof fn lemma_match_recedes(
    levels: Seq<Level>,
    taker: OrderType,
    taker_owner: u64,
    limit: Option<PriceKey>,
    need: nat,
)
    requires
        side_wf(levels),
    ensures
        ({
            let left = match_levels(levels, taker, taker_owner, limit, need).levels;
            left.len() > 0 ==> levels.len() > 0 && match taker {
                OrderType::Buy => key_le(levels[0].0, left[0].0),
                OrderType::Sell => key_le(left.last().0, levels.last().0),
            }
        }),
    decreases levels.len(), best_queue_len(levels, taker),
{
    if need == 0 || levels.len() == 0 {
    } else {
        let b = best_index(levels, taker);
        let k = levels[b].0;
        let q = levels[b].1;
        if !marketable(k, taker, limit) || q.len() == 0 {
        } else {
            let head = q[0];
            if head.qty <= need {
                let rest = if q.len() == 1 {
                    levels.remove(b)
                } else {
                    levels.update(b, (k, q.drop_first()))
                };
                if q.len() == 1 {
                    lemma_remove_keeps_wf(levels, b);
                } else {
                    lemma_update_keeps_wf(levels, b, q.drop_first());
                }
                lemma_match_recedes(rest, taker, taker_owner, limit, (need - head.qty) as nat);
                if rest.len() > 0 {
                    match taker {
                        OrderType::Buy => {
                            if q.len() == 1 {
                                assert(rest[0] == levels[1]);
                                assert(key_lt(levels[0].0, levels[1].0));
                            }
                        },
                        OrderType::Sell => {
                            if q.len() == 1 {
                                let n = levels.len() as int;
                                assert(rest.last() == levels[n - 2]);
                                assert(key_lt(levels[n - 2].0, levels[n - 1].0));
                            }
                        },
                    }
                }
            }
        }
    }
}

/// An incoming order that is not filled in full has taken everything it
/// could: the side is empty or its best level is not marketable.
pub proof fn lemma_match_exhausts(
    levels: Seq<Level>,
    taker: OrderType,
    taker_owner: u64,
    limit: Option<PriceKey>,
    need: nat,
)
    requires
        side_wf(levels),
    ensures
        ({
            let out = match_levels(levels, taker, taker_owner, limit, need);
            out.filled < need ==> out.levels.len() == 0 || !marketable(
                out.levels[best_index(out.levels, taker)].0,
                taker,
                limit,
            )
        }),
    decreases levels.len(), best_queue_len(levels, taker),
{
    if need == 0 || levels.len() == 0 {
    } else {
        let b = best_index(levels, taker);
        let k = levels[b].0;
        let q = levels[b].1;
        if !marketable(k, taker, limit) || q.len() == 0 {
        } else {
            let head = q[0];
            if head.qty <= need {
                let rest = if q.len() == 1 {
                    levels.remove(b)
                } else {
                    levels.update(b, (k, q.drop_first()))
                };
                if q.len() == 1 {
                    lemma_remove_keeps_wf(levels, b);
                } else {
                    lemma_update_keeps_wf(levels, b, q.drop_first());
                }
                lemma_match_exhausts(rest, taker, taker_owner, limit, (need - head.qty) as nat);
            }
        }
    }
}

/// The lowest and the highest price of a side after an order has been placed
/// at `k`.
pub proof fn lemma_insert_level_ends(s: Seq<Level>, k: PriceKey, o: IdentifiableOrder)
    requires
        keys_strictly_ascending(s),
    ensures
        insert_level(s, k, o).len() > 0,
        insert_level(s, k, o)[0].0 == (if s.len() == 0 || key_lt(k, s[0].0) {
            k
        } else {
            s[0].0
        }),
        insert_level(s, k, o).last().0 == (if s.len() == 0 || key_lt(s.last().0, k) {
            k
        } else {
            s.last().0
        }),
{
    lemma_levels_below(s, k);
    let p = levels_below(s, k);
    if s.len() > 0 {
        if p > 0 {
            assert(key_lt(s[0].0, k));
        }
        if p < s.len() {
            assert(key_le(k, s[s.len() - 1].0));
            assert(key_le(k, s[p].0));
        } else {
            assert(key_lt(s[s.len() - 1].0, k));
        }
        if p == 0 {
            assert(key_le(k, s[0].0));
        }
    }
}

/// Cancelling never widens a side: what is left lies within the old lowest
/// and highest price.
pub proof fn lemma_cancel_level_ends(s: Seq<Level>, k: PriceKey, owner: u64)
    requires
        side_wf(s),
    ensures
        ({
            let r = cancel_level(s, k, owner);
            r.len() > 0 ==> s.len() > 0 && key_le(s[0].0, r[0].0) && key_le(r.last().0, s.last().0)
        }),
{
    lemma_levels_below(s, k);
    let p = levels_below(s, k);
    let r = cancel_level(s, k, owner);
    if has_order(s, k, owner) && s[p].1.len() == 1 && r.len() > 0 {
        lemma_remove_ends(s, p);
    }
}

/// Taking a level out never widens a side.
pub proof fn lemma_remove_ends(s: Seq<Level>, p: int)
    requires
        keys_strictly_ascending(s),
        0 <= p < s.len(),
        s.len() > 1,
    ensures
        key_le(s[0].0, s.remove(p)[0].0),
        key_le(s.remove(p).last().0, s.last().0),
{
    let r = s.remove(p);
    if p == 0 {
        assert(r[0] == s[1]);
        assert(key_lt(s[0].0, s[1].0));
    } else {
        assert(r[0] == s[0]);
    }
    if p == s.len() - 1 {
        assert(r.last() == s[s.len() - 2]);
        assert(key_lt(s[s.len() - 2].0, s[s.len() - 1].0));
    } else {
        assert(r.last() == s[s.len() - 1]);
    }
}

/// No-cross under matching: matching an order against the opposing side of
/// an uncrossed book leaves the book uncrossed.
pub proof fn lemma_match_keeps_uncrossed(
    b: BookView,
    taker: OrderType,
    taker_owner: u64,
    limit: Option<PriceKey>,
    need: nat,
)
    requires
        book_wf(b),
        uncrossed(b),
    ensures
        uncrossed(
            with_opposing_side(
                b,
                taker,
                match_levels(opposing_side(b, taker), taker, taker_owner, limit, need).levels,
            ),
        ),
{
    lemma_match_recedes(opposing_side(b, taker), taker, taker_owner, limit, need);
}

/// No-cross under limit orders: a limit order that matches up to its limit
/// and rests with what is left leaves an uncrossed book uncrossed.
pub proof fn lemma_limit_order_keeps_uncrossed(b: BookView, order: Order, order_type: OrderType)
    requires
        book_wf(b),
        uncrossed(b),
    ensures
        uncrossed(book_after_limit(b, order, order_type)),
{
    let opposing = opposing_side(b, order_type);
    let id = order.identifiable_order.id;
    let need = order.identifiable_order.qty as nat;
    let out = limit_match(b, order, order_type);
    lemma_match_recedes(opposing, order_type, id, Some(order.price@), need);
    lemma_match_exhausts(opposing, order_type, id, Some(order.price@), need);
    lemma_match_conserves(opposing, order_type, id, Some(order.price@), need);
    if out.filled < need {
        let rest = IdentifiableOrder { id, qty: (need - out.filled) as u64 };
        lemma_insert_level_ends(resting_side(b, order_type), order.price@, rest);
    }
}

/// No-cross under resting: an order that does not cross the spread leaves an
/// uncrossed book uncrossed when it comes to rest.
pub proof fn lemma_resting_keeps_uncrossed(b: BookView, order: Order, order_type: OrderType)
    requires
        book_wf(b),
        uncrossed(b),
        !crosses(b, order, order_type),
    ensures
        uncrossed(book_with_resting(b, order, order_type)),
{
    if order.identifiable_order.qty > 0 {
        lemma_insert_level_ends(
            resting_side(b, order_type),
            order.price@,
            order.identifiable_order,
        );
    }
}

/// No-cross under cancelling: cancelling an order on either side leaves an
/// uncrossed book uncrossed.
pub proof fn lemma_cancel_keeps_uncrossed(b: BookView, side: OrderType, k: PriceKey, owner: u64)
    requires
        book_wf(b),
        uncrossed(b),
    ensures
        uncrossed(with_resting_side(b, side, cancel_level(resting_side(b, side), k, owner))),
{
    lemma_cancel_level_ends(resting_side(b, side), k, owner);
}

/// No-cross under removing a level: taking a whole level out of either side
/// leaves an uncrossed book uncrossed.
pub proof fn lemma_remove_level_keeps_uncrossed(b: BookView, side: OrderType, k: PriceKey)
    requires
        book_wf(b),
        uncrossed(b),
    ensures
        uncrossed(with_resting_side(b, side, remove_level(resting_side(b, side), k))),
{
    let s = resting_side(b, side);
    lemma_levels_below(s, k);
    let p = levels_below(s, k);
    if p < s.len() && s[p].0 == k && s.len() > 1 {
        lemma_remove_ends(s, p);
    }
}

/// The owners of the orders in a queue, oldest first: the order in which
/// they were placed at that price.
pub open spec fn owners(q: Seq<IdentifiableOrder>) -> Seq<u64> {
    Seq::new(q.len(), |j: int| q[j].id)
}

/// The makers of the fills made at price `k`, in the order of the fills.
pub open spec fn makers_at(fills: Seq<FillEvent>, k: PriceKey) -> Seq<u64>
    decreases fills.len(),
{
    if fills.len() == 0 {
        Seq::empty()
    } else if fills[0].price == k {
        seq![fills[0].maker_owner] + makers_at(fills.drop_first(), k)
    } else {
        makers_at(fills.drop_first(), k)
    }
}

/// A match makes no fill at a price at which the side has no level.
pub proof fn lemma_fills_priced_in_book(
    levels: Seq<Level>,
    taker: OrderType,
    taker_owner: u64,
    limit: Option<PriceKey>,
    need: nat,
    k: PriceKey,
)
    requires
        !has_key(levels, k),
    ensures
        makers_at(match_levels(levels, taker, taker_owner, limit, need).fills, k) == Seq::<
            u64,
        >::empty(),
    decreases levels.len(), best_queue_len(levels, taker),
{
    let out = match_levels(levels, taker, taker_owner, limit, need);
    if need == 0 || levels.len() == 0 {
    } else {
        let b = best_index(levels, taker);
        let kb = levels[b].0;
        let q = levels[b].1;
        assert(kb != k);
        if !marketable(kb, taker, limit) || q.len() == 0 {
        } else {
            let head = q[0];
            if head.qty <= need {
                let rest = if q.len() == 1 {
                    levels.remove(b)
                } else {
                    levels.update(b, (kb, q.drop_first()))
                };
                assert forall|i: int| 0 <= i < rest.len() implies (#[trigger] rest[i]).0 != k by {
                    if q.len() == 1 {
                        if i < b {
                            assert(rest[i] == levels[i]);
                        } else {
                            assert(rest[i] == levels[i + 1]);
                        }
                    } else {
                        assert(rest[i].0 == levels[i].0);
                    }
                }
                lemma_fills_priced_in_book(
                    rest,
                    taker,
                    taker_owner,
                    limit,
                    (need - head.qty) as nat,
                    k,
                );
                let tail = match_levels(rest, taker, taker_owner, limit, (need - head.qty) as nat);
                assert(out.fills.drop_first() =~= tail.fills);
            } else {
                assert(out.fills.drop_first() =~= Seq::<FillEvent>::empty());
                assert(makers_at(Seq::<FillEvent>::empty(), k) == Seq::<u64>::empty());
            }
        }
    }
}

/// Time priority: the makers whose orders a match consumes at one price are,
/// in the order of the fills, the first owners in the queue at that price.
pub proof fn lemma_time_priority(
    levels: Seq<Level>,
    taker: OrderType,
    taker_owner: u64,
    limit: Option<PriceKey>,
    need: nat,
    i: int,
)
    requires
        side_wf(levels),
        0 <= i < levels.len(),
    ensures
        makers_at(
            match_levels(levels, taker, taker_owner, limit, need).fills,
            levels[i].0,
        ).is_prefix_of(owners(levels[i].1)),
    decreases levels.len(), best_queue_len(levels, taker),
{
    let out = match_levels(levels, taker, taker_owner, limit, need);
    let k = levels[i].0;
    let queue = levels[i].1;
    if need == 0 || levels.len() == 0 {
        assert(makers_at(out.fills, k) =~= owners(queue).subrange(0, 0));
    } else {
        let b = best_index(levels, taker);
        let kb = levels[b].0;
        let q = levels[b].1;
        if i < b {
            assert(key_lt(levels[i].0, levels[b].0));
        } else if i > b {
            assert(key_lt(levels[b].0, levels[i].0));
        }
        if !marketable(kb, taker, limit) || q.len() == 0 {
            assert(makers_at(out.fills, k) =~= owners(queue).subrange(0, 0));
        } else {
            let head = q[0];
            if head.qty <= need {
                let rest = if q.len() == 1 {
                    levels.remove(b)
                } else {
                    levels.update(b, (kb, q.drop_first()))
                };
                let rest_need = (need - head.qty) as nat;
                let tail = match_levels(rest, taker, taker_owner, limit, rest_need);
                assert(out.fills.drop_first() =~= tail.fills);
                assert(out.fills[0].price == kb);
                assert(out.fills[0].maker_owner == head.id);
                if q.len() == 1 {
                    lemma_remove_keeps_wf(levels, b);
                } else {
                    lemma_update_keeps_wf(levels, b, q.drop_first());
                }
                if i != b {
                    let at = if q.len() == 1 && i > b { i - 1 } else { i };
                    assert(rest[at] == levels[i]);
                    lemma_time_priority(rest, taker, taker_owner, limit, rest_need, at);
                } else if q.len() == 1 {
                    assert forall|j: int| 0 <= j < rest.len() implies (#[trigger] rest[j]).0
                        != kb by {
                        if j < b {
                            assert(rest[j] == levels[j]);
                            assert(key_lt(levels[j].0, levels[b].0));
                        } else {
                            assert(rest[j] == levels[j + 1]);
                            assert(key_lt(levels[b].0, levels[j + 1].0));
                        }
                    }
                    lemma_fills_priced_in_book(rest, taker, taker_owner, limit, rest_need, kb);
                    assert(makers_at(out.fills, k) =~= seq![head.id]);
                    assert(owners(queue).subrange(0, 1) =~= seq![head.id]);
                } else {
                    lemma_time_priority(rest, taker, taker_owner, limit, rest_need, b);
                    let later = makers_at(tail.fills, kb);
                    assert(makers_at(out.fills, k) =~= seq![head.id] + later);
                    assert(later =~= owners(q.drop_first()).subrange(0, later.len() as int));
                    assert(owners(q) =~= seq![head.id] + owners(q.drop_first()));
                    assert(seq![head.id] + later =~= owners(q).subrange(0, later.len() as int + 1));
                }
            } else {
                assert(out.fills.drop_first() =~= Seq::<FillEvent>::empty());
                assert(makers_at(Seq::<FillEvent>::empty(), k) == Seq::<u64>::empty());
                if i == b {
                    assert(makers_at(out.fills, k) =~= seq![head.id]);
                    assert(owners(queue).subrange(0, 1) =~= seq![head.id]);
                } else {
                    assert(makers_at(out.fills, k) =~= owners(queue).subrange(0, 0));
                }
            }
        }
    }
}

/// Every fill of a match is a trade of the incoming order with a level of the
/// side: it names the incoming owner, its price is the price of a level that
/// is marketable for the incoming order, its quantity is positive, and its
/// price is no better for the incoming order than the best price of the side.
pub proof fn lemma_fill_origin(
    levels: Seq<Level>,
    taker: OrderType,
    taker_owner: u64,
    limit: Option<PriceKey>,
    need: nat,
    at: int,
)
    requires
        side_wf(levels),
        0 <= at < match_levels(levels, taker, taker_owner, limit, need).fills.len(),
    ensures
        ({
            let fill = match_levels(levels, taker, taker_owner, limit, need).fills[at];
            &&& fill.taker_owner == taker_owner
            &&& fill.qty > 0
            &&& has_key(levels, fill.price)
            &&& marketable(fill.price, taker, limit)
            &&& levels.len() > 0
            &&& match taker {
                OrderType::Buy => key_le(levels[0].0, fill.price),
                OrderType::Sell => key_le(fill.price, levels.last().0),
            }
        }),
    decreases levels.len(), best_queue_len(levels, taker),
{
    let out = match_levels(levels, taker, taker_owner, limit, need);
    if need == 0 || levels.len() == 0 {
    } else {
        let b = best_index(levels, taker);
        let k = levels[b].0;
        let q = levels[b].1;
        if !marketable(k, taker, limit) || q.len() == 0 {
        } else {
            let head = q[0];
            if at == 0 {
                assert(levels[b].0 == out.fills[0].price);
            } else {
                let rest = if q.len() == 1 {
                    levels.remove(b)
                } else {
                    levels.update(b, (k, q.drop_first()))
                };
                let rest_need = (need - head.qty) as nat;
                let tail = match_levels(rest, taker, taker_owner, limit, rest_need);
                if q.len() == 1 {
                    lemma_remove_keeps_wf(levels, b);
                } else {
                    lemma_update_keeps_wf(levels, b, q.drop_first());
                }
                assert(out.fills[at] == tail.fills[at - 1]);
                lemma_fill_origin(rest, taker, taker_owner, limit, rest_need, at - 1);
                let fill = out.fills[at];
                let i = choose|i: int| 0 <= i < rest.len() && (#[trigger] rest[i]).0 == fill.price;
                let from = if q.len() == 1 && i >= b { i + 1 } else { i };
                assert(levels[from].0 == fill.price);
                match taker {
                    OrderType::Buy => {
                        if from > 0 {
                            assert(key_lt(levels[0].0, levels[from].0));
                        }
                    },
                    OrderType::Sell => {
                        if from < levels.len() - 1 {
                            assert(key_lt(levels[from].0, levels[levels.len() - 1].0));
                        }
                    },
                }
            }
        }
    }
}

/// Price priority: the fills of a match come in the order of the prices, the
/// best for the incoming order first. A buy is filled at ascending prices, a
/// sell at descending prices.
pub proof fn lemma_price_priority(
    levels: Seq<Level>,
    taker: OrderType,
    taker_owner: u64,
    limit: Option<PriceKey>,
    need: nat,
    i: int,
    j: int,
)
    requires
        side_wf(levels),
        0 <= i <= j < match_levels(levels, taker, taker_owner, limit, need).fills.len(),
    ensures
        ({
            let fills = match_levels(levels, taker, taker_owner, limit, need).fills;
            match taker {
                OrderType::Buy => key_le(fills[i].price, fills[j].price),
                OrderType::Sell => key_le(fills[j].price, fills[i].price),
            }
        }),
    decreases levels.len(), best_queue_len(levels, taker),
{
    let out = match_levels(levels, taker, taker_owner, limit, need);
    if need == 0 || levels.len() == 0 {
    } else {
        let b = best_index(levels, taker);
        let k = levels[b].0;
        let q = levels[b].1;
        if !marketable(k, taker, limit) || q.len() == 0 {
        } else if j > 0 {
            let head = q[0];
            let rest = if q.len() == 1 {
                levels.remove(b)
            } else {
                levels.update(b, (k, q.drop_first()))
            };
            let rest_need = (need - head.qty) as nat;
            let tail = match_levels(rest, taker, taker_owner, limit, rest_need);
            if q.len() == 1 {
                lemma_remove_keeps_wf(levels, b);
            } else {
                lemma_update_keeps_wf(levels, b, q.drop_first());
            }
            assert(out.fills[j] == tail.fills[j - 1]);
            if i == 0 {
                assert(out.fills[0].price == k);
                lemma_fill_origin(levels, taker, taker_owner, limit, need, j);
            } else {
                assert(out.fills[i] == tail.fills[i - 1]);
                lemma_price_priority(rest, taker, taker_owner, limit, rest_need, i - 1, j - 1);
            }
        }
    }
}

/// The number of orders of `owner` in a queue.
pub open spec fn owned_count(q: Seq<IdentifiableOrder>, owner: u64) -> nat
    decreases q.len(),
{
    if q.len() == 0 {
        0
    } else {
        owned_count(q.drop_last(), owner) + (if q.last().id == owner {
            1nat
        } else {
            0nat
        })
    }
}

/// The number of orders of `owner` that rest at price `k`.
pub open spec fn orders_of(s: Seq<Level>, k: PriceKey, owner: u64) -> nat {
    let p = levels_below(s, k);
    if p < s.len() && s[p].0 == k {
        owned_count(s[p].1, owner)
    } else {
        0
    }
}

/// An owner has an order in a queue exactly when `first_owned` finds one.
pub proof fn lemma_owned_count_found(q: Seq<IdentifiableOrder>, owner: u64)
    ensures
        owned_count(q, owner) > 0 <==> first_owned(q, owner) < q.len(),
    decreases q.len(),
{
    lemma_first_owned(q, owner);
    if q.len() > 0 {
        let t = q.drop_last();
        lemma_owned_count_found(t, owner);
        lemma_first_owned(t, owner);
        let p = first_owned(q, owner);
        let pt = first_owned(t, owner);
        if pt < t.len() {
            assert(t[pt] == q[pt]);
            if p > pt {
                assert(q[pt].id != owner);
            }
        } else if p < t.len() {
            assert(q[p] == t[p]);
            assert(t[p].id != owner);
        }
    }
}

/// Taking the oldest order of an owner out of a queue leaves one fewer of
/// that owner's orders in it.
pub proof fn lemma_owned_count_remove(q: Seq<IdentifiableOrder>, owner: u64)
    requires
        first_owned(q, owner) < q.len(),
    ensures
        owned_count(q.remove(first_owned(q, owner)), owner) + 1 == owned_count(q, owner),
    decreases q.len(),
{
    lemma_first_owned(q, owner);
    let j = first_owned(q, owner);
    let t = q.drop_last();
    if j == q.len() - 1 {
        assert(q.remove(j) =~= t);
    } else {
        lemma_first_owned(t, owner);
        let pt = first_owned(t, owner);
        assert(t[j] == q[j]);
        if pt < j {
            assert(t[pt] == q[pt]);
            assert(q[pt].id != owner);
        } else if pt > j {
            assert(t[j].id != owner);
        }
        lemma_owned_count_remove(t, owner);
        assert(q.remove(j).drop_last() =~= t.remove(j));
        assert(q.remove(j).last() == q.last());
    }
}

/// Cancel, nothing to cancel: where the owner has no order at the price,
/// cancelling changes nothing.
pub proof fn lemma_cancel_absent(s: Seq<Level>, k: PriceKey, owner: u64)
    requires
        !has_order(s, k, owner),
    ensures
        cancel_level(s, k, owner) == s,
{
}

/// Cancel removes exactly one: where the owner has an order at the price,
/// cancelling leaves one fewer of the owner's orders there.
pub proof fn lemma_cancel_removes_one(s: Seq<Level>, k: PriceKey, owner: u64)
    requires
        side_wf(s),
        has_order(s, k, owner),
    ensures
        orders_of(cancel_level(s, k, owner), k, owner) + 1 == orders_of(s, k, owner),
{
    lemma_levels_below(s, k);
    lemma_cancel_level_wf(s, k, owner);
    let p = levels_below(s, k);
    let q = s[p].1;
    let r = cancel_level(s, k, owner);
    lemma_owned_count_remove(q, owner);
    lemma_first_owned(q, owner);
    if q.len() == 1 {
        assert(q.remove(first_owned(q, owner)) =~= Seq::<IdentifiableOrder>::empty());
        assert forall|i: int| 0 <= i < r.len() implies (#[trigger] r[i]).0 != k by {
            if i < p {
                assert(r[i] == s[i]);
                assert(key_lt(s[i].0, s[p].0));
            } else {
                assert(r[i] == s[i + 1]);
                assert(key_lt(s[p].0, s[i + 1].0));
            }
        }
        lemma_level_absent(r, k);
    } else {
        lemma_level_position(r, k, p);
    }
}

/// Cancel idempotence: where the owner has exactly one order at the price,
/// a second cancel finds nothing and changes nothing.
pub proof fn lemma_cancel_twice(s: Seq<Level>, k: PriceKey, owner: u64)
    requires
        side_wf(s),
        orders_of(s, k, owner) == 1,
    ensures
        has_order(s, k, owner),
        !has_order(cancel_level(s, k, owner), k, owner),
        cancel_level(cancel_level(s, k, owner), k, owner) == cancel_level(s, k, owner),
{
    let p = levels_below(s, k);
    lemma_owned_count_found(s[p].1, owner);
    lemma_cancel_removes_one(s, k, owner);
    let r = cancel_level(s, k, owner);
    let pr = levels_below(r, k);
    if pr < r.len() && r[pr].0 == k {
        lemma_owned_count_found(r[pr].1, owner);
    }
}

} // verus!
