//! The two-sided order book and the matching engine on it.

pub mod fill;
pub mod identifiable_order;
pub mod laws;
pub mod levels;
pub mod matching;
pub mod orders;
pub mod side;

pub use fill::Fill;
pub use identifiable_order::IdentifiableOrder;
pub use orders::{Order, OrderList};

use crate::orderbook::fill::FillEvent;
use crate::orderbook::laws::{
    lemma_cancel_keeps_uncrossed, lemma_limit_order_keeps_uncrossed, lemma_match_keeps_uncrossed,
    lemma_remove_level_keeps_uncrossed, lemma_resting_keeps_uncrossed,
};
use crate::orderbook::levels::{has_key, Level};
use crate::orderbook::matching::{
    best_index, fills_qty, lemma_match_conserves, lemma_match_fills_reachable, marketable,
    match_levels, MatchOutcome,
};
use crate::orderbook::orders::queue_total;
use crate::orderbook::side::{
    cancel_level, has_order, levels_below, queue_qty, remove_level, rest_order, saturated,
    side_wf,
};
use crate::price::{key_lt, opt_key, Price, PriceKey};
use crate::traits::matching_engine::{ExecutionReport, MatchingEngine, OrderType};
use std::collections::VecDeque;
use vstd::prelude::*;

verus! {

/// The book in contracts: the bids and the asks, each in ascending price
/// order.
pub struct BookView {
    pub bids: Seq<Level>,
    pub asks: Seq<Level>,
}

/// The invariant of a book: both sides are well formed.
pub open spec fn book_wf(b: BookView) -> bool {
    side_wf(b.bids) && side_wf(b.asks)
}

/// Whether the best bid is below the best ask, or one side is empty.
pub open spec fn uncrossed(b: BookView) -> bool {
    b.bids.len() == 0 || b.asks.len() == 0 || key_lt(b.bids.last().0, b.asks[0].0)
}

/// The market price of a book: the highest bid, or the lowest ask where no
/// bid rests, or nothing on an empty book.
pub open spec fn market_price(b: BookView) -> Option<PriceKey> {
    if b.bids.len() > 0 {
        Some(b.bids.last().0)
    } else if b.asks.len() > 0 {
        Some(b.asks[0].0)
    } else {
        None
    }
}

/// The side of the book on which orders of type `side` rest.
pub open spec fn resting_side(b: BookView, side: OrderType) -> Seq<Level> {
    match side {
        OrderType::Buy => b.bids,
        OrderType::Sell => b.asks,
    }
}

/// The position in a side of the level that is `i` steps from the best one:
/// bids count down from the highest price, asks up from the lowest.
pub open spec fn nth_best(levels: Seq<Level>, side: OrderType, i: int) -> int {
    match side {
        OrderType::Buy => levels.len() - 1 - i,
        OrderType::Sell => i,
    }
}

/// The best `n` levels of a side from the best outward, each as its price
/// and the total quantity resting at it.
pub open spec fn depth_of(levels: Seq<Level>, side: OrderType, n: nat) -> Seq<(PriceKey, u64)> {
    Seq::new(
        if n < levels.len() {
            n
        } else {
            levels.len()
        },
        |i: int|
            {
                let level = levels[nth_best(levels, side, i)];
                (level.0, saturated(queue_qty(level.1)))
            },
    )
}

/// The side of the book against which an order of type `taker` trades.
pub open spec fn opposing_side(b: BookView, taker: OrderType) -> Seq<Level> {
    match taker {
        OrderType::Buy => b.asks,
        OrderType::Sell => b.bids,
    }
}

/// The book with its side for orders of type `side` replaced by `levels`.
pub open spec fn with_resting_side(b: BookView, side: OrderType, levels: Seq<Level>) -> BookView {
    match side {
        OrderType::Buy => BookView { bids: levels, asks: b.asks },
        OrderType::Sell => BookView { bids: b.bids, asks: levels },
    }
}

/// The book with the side against which `taker` trades replaced by `levels`.
pub open spec fn with_opposing_side(b: BookView, taker: OrderType, levels: Seq<Level>) -> BookView {
    match taker {
        OrderType::Buy => BookView { bids: b.bids, asks: levels },
        OrderType::Sell => BookView { bids: levels, asks: b.asks },
    }
}

/// The match of a market order against the opposing side, at any price.
pub open spec fn market_match(b: BookView, order: Order, order_type: OrderType) -> MatchOutcome {
    match_levels(
        opposing_side(b, order_type),
        order_type,
        order.identifiable_order.id,
        None,
        order.identifiable_order.qty as nat,
    )
}

/// The book after a market order has matched.
pub open spec fn book_after_market(b: BookView, order: Order, order_type: OrderType) -> BookView {
    with_opposing_side(b, order_type, market_match(b, order, order_type).levels)
}

/// The match of a limit order against the opposing side, up to its limit.
pub open spec fn limit_match(b: BookView, order: Order, order_type: OrderType) -> MatchOutcome {
    match_levels(
        opposing_side(b, order_type),
        order_type,
        order.identifiable_order.id,
        Some(order.price@),
        order.identifiable_order.qty as nat,
    )
}

/// The book after a limit order has matched and what is left of it has been
/// dropped.
pub open spec fn book_after_match(b: BookView, order: Order, order_type: OrderType) -> BookView {
    with_opposing_side(b, order_type, limit_match(b, order, order_type).levels)
}

/// The book with `order` resting on its own side behind the orders already
/// at its price. An order without quantity does not rest.
pub open spec fn book_with_resting(b: BookView, order: Order, order_type: OrderType) -> BookView {
    with_resting_side(
        b,
        order_type,
        rest_order(resting_side(b, order_type), order.price@, order.identifiable_order),
    )
}

/// The book after a limit order has matched and what is left of it, if
/// anything, has come to rest on its own side.
pub open spec fn book_after_limit(b: BookView, order: Order, order_type: OrderType) -> BookView {
    let out = limit_match(b, order, order_type);
    let matched = book_after_match(b, order, order_type);
    if out.filled < order.identifiable_order.qty {
        book_with_resting(
            matched,
            Order {
                price: order.price,
                identifiable_order: IdentifiableOrder {
                    id: order.identifiable_order.id,
                    qty: (order.identifiable_order.qty - out.filled) as u64,
                },
            },
            order_type,
        )
    } else {
        matched
    }
}

/// Whether a limit order could trade at once: the opposing side has a level
/// and its best price is within the order's limit.
pub open spec fn crosses(b: BookView, order: Order, order_type: OrderType) -> bool {
    let side = opposing_side(b, order_type);
    side.len() > 0 && marketable(
        side[best_index(side, order_type)].0,
        order_type,
        Some(order.price@),
    )
}

/// The order book of one instrument: the resting buy orders and the resting
/// sell orders.
#[derive(Debug)]
pub struct OrderBook {
    bids: OrderList,
    asks: OrderList,
}

impl View for OrderBook {
    type V = BookView;

    closed spec fn view(&self) -> BookView {
        BookView { bids: self.bids@, asks: self.asks@ }
    }
}

impl Default for OrderBook {
    /// The empty book.
    fn default() -> (book: OrderBook)
        ensures
            book@ == (BookView { bids: Seq::empty(), asks: Seq::empty() }),
            book.wf(),
    {
        OrderBook { bids: OrderList::new(), asks: OrderList::new() }
    }
}

impl OrderBook {
    /// The invariant of the book, over its view.
    pub open spec fn wf(&self) -> bool {
        book_wf(self@)
    }

    /// The book with the given sides.
    pub fn new(bids: OrderList, asks: OrderList) -> (book: OrderBook)
        requires
            bids.wf(),
            asks.wf(),
        ensures
            book@ == (BookView { bids: bids@, asks: asks@ }),
            book.wf(),
    {
        OrderBook { bids, asks }
    }

    /// The current market price: the highest bid, or the lowest ask where no
    /// bid rests.
    pub fn get_price(&self) -> (r: Option<Price>)
        requires
            self.wf(),
        ensures
            opt_key(r) == market_price(self@),
    {
        match self.bids.best(OrderType::Sell) {
            Some((price, _)) => Some(price),
            None => match self.asks.best(OrderType::Buy) {
                Some((price, _)) => Some(price),
                None => None,
            },
        }
    }

    /// The highest bid: its price and the order at the front of its queue.
    pub fn highest_bid(&self) -> (r: Option<(Price, IdentifiableOrder)>)
        requires
            self.wf(),
        ensures
            match r {
                Some((price, order)) => self@.bids.len() > 0 && price@ == self@.bids.last().0
                    && order == self@.bids.last().1[0],
                None => self@.bids.len() == 0,
            },
    {
        match self.bids.best(OrderType::Sell) {
            Some((price, orders)) => Some((price, orders[0])),
            None => None,
        }
    }

    /// The lowest ask: its price and the order at the front of its queue.
    pub fn lowest_ask(&self) -> (r: Option<(Price, IdentifiableOrder)>)
        requires
            self.wf(),
        ensures
            match r {
                Some((price, order)) => self@.asks.len() > 0 && price@ == self@.asks[0].0
                    && order == self@.asks[0].1[0],
                None => self@.asks.len() == 0,
            },
    {
        match self.asks.best(OrderType::Buy) {
            Some((price, orders)) => Some((price, orders[0])),
            None => None,
        }
    }

    /// Top of book on the bid side: the highest bid price and the total
    /// quantity resting at it, saturating at the largest `u64`.
    pub fn top_bid(&self) -> (r: Option<(Price, u64)>)
        requires
            self.wf(),
        ensures
            match r {
                Some((price, qty)) => self@.bids.len() > 0 && price@ == self@.bids.last().0
                    && qty == saturated(queue_qty(self@.bids.last().1)),
                None => self@.bids.len() == 0,
            },
    {
        match self.bids.best(OrderType::Sell) {
            Some((price, orders)) => Some((price, queue_total(orders))),
            None => None,
        }
    }

    /// Top of book on the ask side: the lowest ask price and the total
    /// quantity resting at it, saturating at the largest `u64`.
    pub fn top_ask(&self) -> (r: Option<(Price, u64)>)
        requires
            self.wf(),
        ensures
            match r {
                Some((price, qty)) => self@.asks.len() > 0 && price@ == self@.asks[0].0 && qty
                    == saturated(queue_qty(self@.asks[0].1)),
                None => self@.asks.len() == 0,
            },
    {
        match self.asks.best(OrderType::Buy) {
            Some((price, orders)) => Some((price, queue_total(orders))),
            None => None,
        }
    }

    /// The best `n` levels of the side on which orders of type `side` rest,
    /// from the best outward: bids from the highest price down, asks from the
    /// lowest price up.
    pub fn depth(&self, side: OrderType, n: usize) -> (r: Vec<(Price, u64)>)
        requires
            self.wf(),
        ensures
            r@.len() == depth_of(resting_side(self@, side), side, n as nat).len(),
            forall|i: int|
                0 <= i < r@.len() ==> (#[trigger] r@[i]).0@ == depth_of(
                    resting_side(self@, side),
                    side,
                    n as nat,
                )[i].0 && r@[i].1 == depth_of(resting_side(self@, side), side, n as nat)[i].1,
            forall|i: int, j: int|
                0 <= i < j < r@.len() ==> match side {
                    OrderType::Buy => key_lt((#[trigger] r@[j]).0@, (#[trigger] r@[i]).0@),
                    OrderType::Sell => key_lt(r@[i].0@, r@[j].0@),
                },
    {
        let levels = match side {
            OrderType::Buy => &self.bids,
            OrderType::Sell => &self.asks,
        };
        let len = levels.len();
        let count = if n < len { n } else { len };
        let mut out: Vec<(Price, u64)> = Vec::new();
        let mut i: usize = 0;
        while i < count
            invariant
                levels.wf(),
                levels@ == resting_side(self@, side),
                len == levels@.len(),
                count == depth_of(levels@, side, n as nat).len(),
                count <= len,
                i <= count,
                out@.len() == i,
                forall|j: int|
                    0 <= j < i ==> (#[trigger] out@[j]).0@ == depth_of(levels@, side, n as nat)[j].0
                        && out@[j].1 == depth_of(levels@, side, n as nat)[j].1,
            decreases count - i,
        {
            let at = match side {
                OrderType::Buy => len - 1 - i,
                OrderType::Sell => i,
            };
            match levels.level_at(at) {
                Some((price, orders)) => {
                    out.push((price, queue_total(orders)));
                },
                None => {},
            }
            i = i + 1;
        }
        out
    }

    /// Inserts a limit buy order without matching it. An order without
    /// quantity is not inserted.
    pub fn insert_buy_order(&mut self, insert_order: Order)
        requires
            old(self).wf(),
        ensures
            final(self).wf(),
            final(self)@ == book_with_resting(old(self)@, insert_order, OrderType::Buy),
            uncrossed(old(self)@) && !crosses(old(self)@, insert_order, OrderType::Buy)
                ==> uncrossed(final(self)@),
    {
        proof {
            if uncrossed(self@) && !crosses(self@, insert_order, OrderType::Buy) {
                lemma_resting_keeps_uncrossed(self@, insert_order, OrderType::Buy);
            }
        }
        self.bids.insert_order(insert_order)
    }

    /// Inserts a limit sell order without matching it. An order without
    /// quantity is not inserted.
    pub fn insert_sell_order(&mut self, insert_order: Order)
        requires
            old(self).wf(),
        ensures
            final(self).wf(),
            final(self)@ == book_with_resting(old(self)@, insert_order, OrderType::Sell),
            uncrossed(old(self)@) && !crosses(old(self)@, insert_order, OrderType::Sell)
                ==> uncrossed(final(self)@),
    {
        proof {
            if uncrossed(self@) && !crosses(self@, insert_order, OrderType::Sell) {
                lemma_resting_keeps_uncrossed(self@, insert_order, OrderType::Sell);
            }
        }
        self.asks.insert_order(insert_order)
    }

    /// Cancels the oldest buy order of the owner named in `remove_order` at
    /// its price, and tells whether there was one. The quantity in
    /// `remove_order` plays no part.
    pub fn remove_buy_order(&mut self, remove_order: Order) -> (removed: bool)
        requires
            old(self).wf(),
        ensures
            final(self).wf(),
            removed == has_order(
                old(self)@.bids,
                remove_order.price@,
                remove_order.identifiable_order.id,
            ),
            final(self)@ == (BookView {
                bids: cancel_level(
                    old(self)@.bids,
                    remove_order.price@,
                    remove_order.identifiable_order.id,
                ),
                asks: old(self)@.asks,
            }),
            !removed ==> final(self)@ == old(self)@,
            uncrossed(old(self)@) ==> uncrossed(final(self)@),
    {
        proof {
            if uncrossed(self@) {
                lemma_cancel_keeps_uncrossed(
                    self@,
                    OrderType::Buy,
                    remove_order.price@,
                    remove_order.identifiable_order.id,
                );
            }
        }
        Self::remove_order(remove_order, &mut self.bids)
    }

    /// Cancels the oldest sell order of the owner named in `remove_order` at
    /// its price, and tells whether there was one. The quantity in
    /// `remove_order` plays no part.
    pub fn remove_sell_order(&mut self, remove_order: Order) -> (removed: bool)
        requires
            old(self).wf(),
        ensures
            final(self).wf(),
            removed == has_order(
                old(self)@.asks,
                remove_order.price@,
                remove_order.identifiable_order.id,
            ),
            final(self)@ == (BookView {
                bids: old(self)@.bids,
                asks: cancel_level(
                    old(self)@.asks,
                    remove_order.price@,
                    remove_order.identifiable_order.id,
                ),
            }),
            !removed ==> final(self)@ == old(self)@,
            uncrossed(old(self)@) ==> uncrossed(final(self)@),
    {
        proof {
            if uncrossed(self@) {
                lemma_cancel_keeps_uncrossed(
                    self@,
                    OrderType::Sell,
                    remove_order.price@,
                    remove_order.identifiable_order.id,
                );
            }
        }
        Self::remove_order(remove_order, &mut self.asks)
    }

    /// Takes the whole ask level at `key` out of the book and returns its
    /// queue, if there is one.
    pub fn remove_ask_price_level(&mut self, key: &Price) -> (r: Option<
        VecDeque<IdentifiableOrder>,
    >)
        requires
            old(self).wf(),
        ensures
            final(self).wf(),
            final(self)@ == (BookView {
                bids: old(self)@.bids,
                asks: remove_level(old(self)@.asks, key@),
            }),
            match r {
                Some(q) => has_key(old(self)@.asks, key@) && q@ == old(self)@.asks[levels_below(
                    old(self)@.asks,
                    key@,
                )].1,
                None => !has_key(old(self)@.asks, key@),
            },
            uncrossed(old(self)@) ==> uncrossed(final(self)@),
    {
        proof {
            if uncrossed(self@) {
                lemma_remove_level_keeps_uncrossed(self@, OrderType::Sell, key@);
            }
        }
        self.asks.remove_level(key)
    }

    /// Takes the whole bid level at `key` out of the book and returns its
    /// queue, if there is one.
    pub fn remove_bid_price_level(&mut self, key: &Price) -> (r: Option<
        VecDeque<IdentifiableOrder>,
    >)
        requires
            old(self).wf(),
        ensures
            final(self).wf(),
            final(self)@ == (BookView {
                bids: remove_level(old(self)@.bids, key@),
                asks: old(self)@.asks,
            }),
            match r {
                Some(q) => has_key(old(self)@.bids, key@) && q@ == old(self)@.bids[levels_below(
                    old(self)@.bids,
                    key@,
                )].1,
                None => !has_key(old(self)@.bids, key@),
            },
            uncrossed(old(self)@) ==> uncrossed(final(self)@),
    {
        proof {
            if uncrossed(self@) {
                lemma_remove_level_keeps_uncrossed(self@, OrderType::Buy, key@);
            }
        }
        self.bids.remove_level(key)
    }

    /// Cancels on one side of a book the oldest order of the owner named in
    /// `remove_order` at its price, and tells whether there was one.
    pub fn remove_order(remove_order: Order, order_book: &mut OrderList) -> (removed: bool)
        requires
            old(order_book).wf(),
        ensures
            final(order_book).wf(),
            removed == has_order(
                old(order_book)@,
                remove_order.price@,
                remove_order.identifiable_order.id,
            ),
            final(order_book)@ == cancel_level(
                old(order_book)@,
                remove_order.price@,
                remove_order.identifiable_order.id,
            ),
            !removed ==> final(order_book)@ == old(order_book)@,
    {
        order_book.cancel(&remove_order.price, remove_order.identifiable_order.id)
    }
}

impl MatchingEngine for OrderBook {
    open spec fn ready(&self) -> bool {
        self.wf()
    }

    /// The asks are left as `limit_match` says and the bids as they were. The
    /// order is always accepted.
    fn market_buy_until(&mut self, buy_order: Order, fills: &mut Vec<Fill>) -> (r: (
        bool,
        u64,
        u64,
        Order,
    ))
        ensures
            final(self)@ == book_after_match(old(self)@, buy_order, OrderType::Buy),
            r.0,
            r.2 == limit_match(old(self)@, buy_order, OrderType::Buy).filled,
            final(fills).deep_view() == old(fills).deep_view() + limit_match(
                old(self)@,
                buy_order,
                OrderType::Buy,
            ).fills,
            uncrossed(old(self)@) ==> uncrossed(final(self)@),
    {
        let mut buy_order = buy_order;
        let market_buy_qty = buy_order.get_order().get_qty();
        proof {
            lemma_limit_fills(self@, fills.deep_view(), buy_order, OrderType::Buy);
        }
        let accumulator = self.asks.match_orders(
            OrderType::Buy,
            buy_order.get_order().get_id(),
            Some(*buy_order.get_price()),
            market_buy_qty,
            fills,
        );
        buy_order.get_order_mut().set_qty(market_buy_qty - accumulator);
        (true, market_buy_qty, accumulator, buy_order)
    }

    /// The bids are left as `limit_match` says and the asks as they were. The
    /// order is always accepted.
    fn market_sell_until(&mut self, sell_order: Order, fills: &mut Vec<Fill>) -> (r: (
        bool,
        u64,
        u64,
        Order,
    ))
        ensures
            final(self)@ == book_after_match(old(self)@, sell_order, OrderType::Sell),
            r.0,
            r.2 == limit_match(old(self)@, sell_order, OrderType::Sell).filled,
            final(fills).deep_view() == old(fills).deep_view() + limit_match(
                old(self)@,
                sell_order,
                OrderType::Sell,
            ).fills,
            uncrossed(old(self)@) ==> uncrossed(final(self)@),
    {
        let mut sell_order = sell_order;
        let market_sell_qty = sell_order.get_order().get_qty();
        proof {
            lemma_limit_fills(self@, fills.deep_view(), sell_order, OrderType::Sell);
        }
        let accumulator = self.bids.match_orders(
            OrderType::Sell,
            sell_order.get_order().get_id(),
            Some(*sell_order.get_price()),
            market_sell_qty,
            fills,
        );
        sell_order.get_order_mut().set_qty(market_sell_qty - accumulator);
        (true, market_sell_qty, accumulator, sell_order)
    }

    /// The asks are left as `market_match` says and the bids as they were.
    /// The order is accepted unless no ask rested in the book; its price
    /// plays no part.
    fn market_buy(&mut self, buy_order: Order, fills: &mut Vec<Fill>) -> (r: ExecutionReport)
        ensures
            final(self)@ == book_after_market(old(self)@, buy_order, OrderType::Buy),
            r.0 == (old(self)@.asks.len() > 0),
            r.2 == market_match(old(self)@, buy_order, OrderType::Buy).filled,
            final(fills).deep_view() == old(fills).deep_view() + market_match(
                old(self)@,
                buy_order,
                OrderType::Buy,
            ).fills,
            uncrossed(old(self)@) ==> uncrossed(final(self)@),
    {
        let market_buy_qty = buy_order.get_order().get_qty();
        let accepted = self.asks.len() > 0;
        proof {
            lemma_market_fills(self@, fills.deep_view(), buy_order, OrderType::Buy);
        }
        let accumulator = self.asks.match_orders(
            OrderType::Buy,
            buy_order.get_order().get_id(),
            None,
            market_buy_qty,
            fills,
        );
        (accepted, market_buy_qty, accumulator)
    }

    /// The bids are left as `market_match` says and the asks as they were.
    /// The order is accepted unless no bid rested in the book; its price
    /// plays no part.
    fn market_sell(&mut self, sell_order: Order, fills: &mut Vec<Fill>) -> (r: ExecutionReport)
        ensures
            final(self)@ == book_after_market(old(self)@, sell_order, OrderType::Sell),
            r.0 == (old(self)@.bids.len() > 0),
            r.2 == market_match(old(self)@, sell_order, OrderType::Sell).filled,
            final(fills).deep_view() == old(fills).deep_view() + market_match(
                old(self)@,
                sell_order,
                OrderType::Sell,
            ).fills,
            uncrossed(old(self)@) ==> uncrossed(final(self)@),
    {
        let market_sell_qty = sell_order.get_order().get_qty();
        let accepted = self.bids.len() > 0;
        proof {
            lemma_market_fills(self@, fills.deep_view(), sell_order, OrderType::Sell);
        }
        let accumulator = self.bids.match_orders(
            OrderType::Sell,
            sell_order.get_order().get_id(),
            None,
            market_sell_qty,
            fills,
        );
        (accepted, market_sell_qty, accumulator)
    }

    /// The book is left as `book_after_limit` says: the opposing side after
    /// the match, and the order's own side with what is left of the order
    /// behind the orders already at its price.
    fn match_and_insert(&mut self, order: Order, order_type: OrderType, fills: &mut Vec<Fill>)
        ensures
            final(self)@ == book_after_limit(old(self)@, order, order_type),
            final(fills).deep_view() == old(fills).deep_view() + limit_match(
                old(self)@,
                order,
                order_type,
            ).fills,
            uncrossed(old(self)@) ==> uncrossed(final(self)@),
    {
        proof {
            if uncrossed(self@) {
                lemma_limit_order_keeps_uncrossed(self@, order, order_type);
            }
        }
        match order_type {
            OrderType::Buy => {
                let (_, _, _, order) = self.market_buy_until(order, fills);
                if order.get_order().get_qty() > 0 {
                    self.insert_buy_order(order);
                }
            },
            OrderType::Sell => {
                let (_, _, _, order) = self.market_sell_until(order, fills);
                if order.get_order().get_qty() > 0 {
                    self.insert_sell_order(order);
                }
            },
        }
    }

    /// An order that crosses the spread is rejected and the book is left as
    /// it was. Any other order is accepted and comes to rest on its own side.
    fn limit_or_cancel_insert(
        &mut self,
        order: Order,
        order_type: OrderType,
        fills: &mut Vec<Fill>,
    ) -> (r: ExecutionReport)
        ensures
            r.0 == !crosses(old(self)@, order, order_type),
            final(self)@ == (if crosses(old(self)@, order, order_type) {
                old(self)@
            } else {
                book_with_resting(old(self)@, order, order_type)
            }),
            uncrossed(old(self)@) ==> uncrossed(final(self)@),
    {
        let qty = order.get_order().get_qty();
        let crossing = match order_type {
            OrderType::Buy => self.asks.crossed_by(OrderType::Buy, order.get_price()),
            OrderType::Sell => self.bids.crossed_by(OrderType::Sell, order.get_price()),
        };
        if crossing {
            (false, qty, 0)
        } else {
            match order_type {
                OrderType::Buy => self.insert_buy_order(order),
                OrderType::Sell => self.insert_sell_order(order),
            }
            (true, qty, 0)
        }
    }

    /// The book is left as `book_after_match` says; what is left of the
    /// order is dropped. The order is always accepted.
    fn immediate_or_cancel_insert(
        &mut self,
        order: Order,
        order_type: OrderType,
        fills: &mut Vec<Fill>,
    ) -> (r: ExecutionReport)
        ensures
            r.0,
            r.2 == limit_match(old(self)@, order, order_type).filled,
            final(self)@ == book_after_match(old(self)@, order, order_type),
            final(fills).deep_view() == old(fills).deep_view() + limit_match(
                old(self)@,
                order,
                order_type,
            ).fills,
            uncrossed(old(self)@) ==> uncrossed(final(self)@),
    {
        match order_type {
            OrderType::Buy => {
                let (accepted, qty, filled, _) = self.market_buy_until(order, fills);
                (accepted, qty, filled)
            },
            OrderType::Sell => {
                let (accepted, qty, filled, _) = self.market_sell_until(order, fills);
                (accepted, qty, filled)
            },
        }
    }

    /// The order is accepted exactly when a match up to its limit would fill
    /// it in full. Then that match is made; otherwise the book and `fills`
    /// are left as they were.
    fn fill_or_kill_insert(
        &mut self,
        order: Order,
        order_type: OrderType,
        fills: &mut Vec<Fill>,
    ) -> (r: ExecutionReport)
        ensures
            r.0 == (limit_match(old(self)@, order, order_type).filled
                == order.identifiable_order.qty),
            r.2 == (if r.0 {
                order.identifiable_order.qty
            } else {
                0
            }),
            final(self)@ == (if r.0 {
                book_after_match(old(self)@, order, order_type)
            } else {
                old(self)@
            }),
            final(fills).deep_view() == (if r.0 {
                old(fills).deep_view() + limit_match(old(self)@, order, order_type).fills
            } else {
                old(fills).deep_view()
            }),
            uncrossed(old(self)@) ==> uncrossed(final(self)@),
    {
        let qty = order.get_order().get_qty();
        let fillable = match order_type {
            OrderType::Buy => self.asks.can_fill(OrderType::Buy, Some(*order.get_price()), qty),
            OrderType::Sell => self.bids.can_fill(OrderType::Sell, Some(*order.get_price()), qty),
        };
        proof {
            lemma_match_fills_reachable(
                opposing_side(self@, order_type),
                order_type,
                order.identifiable_order.id,
                Some(order.price@),
                qty as nat,
            );
            assert(fills.deep_view().skip(fills@.len() as int) =~= Seq::<FillEvent>::empty());
        }
        if fillable {
            match order_type {
                OrderType::Buy => {
                    let (_, _, filled, _) = self.market_buy_until(order, fills);
                    (true, qty, filled)
                },
                OrderType::Sell => {
                    let (_, _, filled, _) = self.market_sell_until(order, fills);
                    (true, qty, filled)
                },
            }
        } else {
            (false, qty, 0)
        }
    }
}

/// What a match up to the limit adds to a fill log is what comes after the
/// old log, its quantity is the filled quantity, and the match keeps an
/// uncrossed book uncrossed.
proof fn lemma_limit_fills(b: BookView, log: Seq<FillEvent>, order: Order, order_type: OrderType)
    requires
        book_wf(b),
    ensures
        (log + limit_match(b, order, order_type).fills).skip(log.len() as int) == limit_match(
            b,
            order,
            order_type,
        ).fills,
        fills_qty(limit_match(b, order, order_type).fills) == limit_match(
            b,
            order,
            order_type,
        ).filled,
        uncrossed(b) ==> uncrossed(book_after_match(b, order, order_type)),
{
    let out = limit_match(b, order, order_type);
    assert((log + out.fills).skip(log.len() as int) =~= out.fills);
    lemma_match_conserves(
        opposing_side(b, order_type),
        order_type,
        order.identifiable_order.id,
        Some(order.price@),
        order.identifiable_order.qty as nat,
    );
    if uncrossed(b) {
        lemma_match_keeps_uncrossed(
            b,
            order_type,
            order.identifiable_order.id,
            Some(order.price@),
            order.identifiable_order.qty as nat,
        );
    }
}

/// As `lemma_limit_fills`, for a match at any price.
proof fn lemma_market_fills(b: BookView, log: Seq<FillEvent>, order: Order, order_type: OrderType)
    requires
        book_wf(b),
    ensures
        (log + market_match(b, order, order_type).fills).skip(log.len() as int) == market_match(
            b,
            order,
            order_type,
        ).fills,
        fills_qty(market_match(b, order, order_type).fills) == market_match(
            b,
            order,
            order_type,
        ).filled,
        uncrossed(b) ==> uncrossed(book_after_market(b, order, order_type)),
{
    let out = market_match(b, order, order_type);
    assert((log + out.fills).skip(log.len() as int) =~= out.fills);
    lemma_match_conserves(
        opposing_side(b, order_type),
        order_type,
        order.identifiable_order.id,
        None,
        order.identifiable_order.qty as nat,
    );
    if uncrossed(b) {
        lemma_match_keeps_uncrossed(
            b,
            order_type,
            order.identifiable_order.id,
            None,
            order.identifiable_order.qty as nat,
        );
    }
}

} // verus!
