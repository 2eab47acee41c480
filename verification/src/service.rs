//! The synchronous service that a transport layer calls: orders come in as
//! plain values with their kind as a number, and answers go out as plain
//! values.

use crate::orderbook::fill::{Fill, FillEvent};
use crate::orderbook::identifiable_order::IdentifiableOrder;
use crate::orderbook::matching::MatchOutcome;
use crate::orderbook::orders::Order;
use crate::orderbook::side::{cancel_level, has_order, queue_qty, saturated};
use crate::orderbook::{
    book_after_limit, book_after_market, book_after_match, book_wf, book_with_resting, crosses,
    depth_of, limit_match, market_match, uncrossed, with_resting_side, BookView, OrderBook,
};
use crate::price::Price;
use crate::traits::matching_engine::{MatchingEngine, OrderType};
use vstd::prelude::*;

verus! {

/// The kinds of order that the service takes.
#[derive(Clone, Copy, Debug, PartialEq, Eq, Structural)]
pub enum OrderKind {
    /// Trades at any price; what cannot be filled is dropped.
    Market,
    /// Good till cancelled: trades up to its limit, and the rest comes to
    /// rest in the book.
    Gtc,
    /// Fill or kill: trades in full up to its limit, or not at all.
    Fok,
    /// Immediate or cancel: trades up to its limit, and the rest is dropped.
    Ioc,
    /// Limit or cancel: rests in the book unless it could trade at once.
    Loc,
}

/// The order kind that a number stands for on the wire: 0 is market, 1 good
/// till cancelled, 2 fill or kill, 3 immediate or cancel, 4 limit or cancel.
/// No other number stands for a kind.
pub open spec fn kind_of_wire(kind: i32) -> Option<OrderKind> {
    if kind == 0 {
        Some(OrderKind::Market)
    } else if kind == 1 {
        Some(OrderKind::Gtc)
    } else if kind == 2 {
        Some(OrderKind::Fok)
    } else if kind == 3 {
        Some(OrderKind::Ioc)
    } else if kind == 4 {
        Some(OrderKind::Loc)
    } else {
        None
    }
}

impl OrderKind {
    /// Reads an order kind from its number on the wire.
    pub fn from_wire(kind: i32) -> (r: Option<OrderKind>)
        ensures
            r == kind_of_wire(kind),
    {
        if kind == 0 {
            Some(OrderKind::Market)
        } else if kind == 1 {
            Some(OrderKind::Gtc)
        } else if kind == 2 {
            Some(OrderKind::Fok)
        } else if kind == 3 {
            Some(OrderKind::Ioc)
        } else if kind == 4 {
            Some(OrderKind::Loc)
        } else {
            None
        }
    }
}

/// Whether the service reports an order of `kind` as a success: a fill or
/// kill order when it can be filled in full, a limit or cancel order when it
/// does not cross the spread, every other order always.
pub open spec fn order_succeeds(
    b: BookView,
    kind: OrderKind,
    order: Order,
    side: OrderType,
) -> bool {
    match kind {
        OrderKind::Fok => limit_match(b, order, side).filled == order.identifiable_order.qty,
        OrderKind::Loc => !crosses(b, order, side),
        _ => true,
    }
}

/// The match that an order of `kind` makes.
pub open spec fn order_match(
    b: BookView,
    kind: OrderKind,
    order: Order,
    side: OrderType,
) -> MatchOutcome {
    match kind {
        OrderKind::Market => market_match(b, order, side),
        _ => limit_match(b, order, side),
    }
}

/// The trades that an order of `kind` makes.
pub open spec fn order_fills(
    b: BookView,
    kind: OrderKind,
    order: Order,
    side: OrderType,
) -> Seq<FillEvent> {
    match kind {
        OrderKind::Loc => Seq::empty(),
        OrderKind::Fok => if order_succeeds(b, kind, order, side) {
            limit_match(b, order, side).fills
        } else {
            Seq::empty()
        },
        _ => order_match(b, kind, order, side).fills,
    }
}

/// The book after an order of `kind`.
pub open spec fn book_after_order(
    b: BookView,
    kind: OrderKind,
    order: Order,
    side: OrderType,
) -> BookView {
    match kind {
        OrderKind::Market => book_after_market(b, order, side),
        OrderKind::Gtc => book_after_limit(b, order, side),
        OrderKind::Ioc => book_after_match(b, order, side),
        OrderKind::Fok => if order_succeeds(b, kind, order, side) {
            book_after_match(b, order, side)
        } else {
            b
        },
        OrderKind::Loc => if order_succeeds(b, kind, order, side) {
            book_with_resting(b, order, side)
        } else {
            b
        },
    }
}

/// The service around one order book. Orders reach the book only through
/// the matching engine, so the book is never crossed.
#[derive(Debug)]
pub struct OrderBookApi {
    orderbook: OrderBook,
}

impl View for OrderBookApi {
    type V = BookView;

    closed spec fn view(&self) -> BookView {
        self.orderbook@
    }
}

impl Default for OrderBookApi {
    /// The service on an empty book.
    fn default() -> (api: OrderBookApi)
        ensures
            api@ == (BookView { bids: Seq::empty(), asks: Seq::empty() }),
            api.wf(),
    {
        OrderBookApi { orderbook: OrderBook::default() }
    }
}

impl OrderBookApi {
    /// The invariant of the service: the book is well formed and not
    /// crossed.
    pub open spec fn wf(&self) -> bool {
        book_wf(self@) && uncrossed(self@)
    }

    /// Executes an order of the kind that `order_type` stands for, on the
    /// side `side`, and tells whether it succeeded. A number that stands for
    /// no kind is refused: nothing changes and the answer is `false`.
    fn insert_order(
        &mut self,
        side: OrderType,
        order_type: i32,
        order_price: Price,
        identifier: u64,
        qty: u64,
        fills: &mut Vec<Fill>,
    ) -> (success: bool)
        requires
            old(self).wf(),
        ensures
            final(self).wf(),
            old(fills)@.is_prefix_of(final(fills)@),
            match kind_of_wire(order_type) {
                Some(kind) => {
                    let order = Order {
                        price: order_price,
                        identifiable_order: IdentifiableOrder { id: identifier, qty },
                    };
                    &&& success == order_succeeds(old(self)@, kind, order, side)
                    &&& final(self)@ == book_after_order(old(self)@, kind, order, side)
                    &&& final(fills).deep_view() == old(fills).deep_view() + order_fills(
                        old(self)@,
                        kind,
                        order,
                        side,
                    )
                },
                None => {
                    &&& !success
                    &&& final(self)@ == old(self)@
                    &&& final(fills).deep_view() == old(fills).deep_view()
                },
            },
    {
        let identifiable_order = IdentifiableOrder::new(identifier, qty);
        let order = Order::new(order_price, identifiable_order);
        proof {
            assert(fills.deep_view() + Seq::<FillEvent>::empty() =~= fills.deep_view());
        }
        match OrderKind::from_wire(order_type) {
            Some(OrderKind::Market) => {
                match side {
                    OrderType::Buy => {
                        self.orderbook.market_buy(order, fills);
                    },
                    OrderType::Sell => {
                        self.orderbook.market_sell(order, fills);
                    },
                }
                true
            },
            Some(OrderKind::Gtc) => {
                self.orderbook.match_and_insert(order, side, fills);
                true
            },
            Some(OrderKind::Fok) => {
                let report = self.orderbook.fill_or_kill_insert(order, side, fills);
                report.0
            },
            Some(OrderKind::Ioc) => {
                self.orderbook.immediate_or_cancel_insert(order, side, fills);
                true
            },
            Some(OrderKind::Loc) => {
                let report = self.orderbook.limit_or_cancel_insert(order, side, fills);
                report.0
            },
            None => false,
        }
    }

    /// Executes a buy order. See `insert_order`.
    pub fn insert_buy_order(
        &mut self,
        order_type: i32,
        order_price: Price,
        identifier: u64,
        qty: u64,
        fills: &mut Vec<Fill>,
    ) -> (success: bool)
        requires
            old(self).wf(),
        ensures
            final(self).wf(),
            old(fills)@.is_prefix_of(final(fills)@),
            match kind_of_wire(order_type) {
                Some(kind) => {
                    let order = Order {
                        price: order_price,
                        identifiable_order: IdentifiableOrder { id: identifier, qty },
                    };
                    &&& success == order_succeeds(old(self)@, kind, order, OrderType::Buy)
                    &&& final(self)@ == book_after_order(old(self)@, kind, order, OrderType::Buy)
                    &&& final(fills).deep_view() == old(fills).deep_view() + order_fills(
                        old(self)@,
                        kind,
                        order,
                        OrderType::Buy,
                    )
                },
                None => {
                    &&& !success
                    &&& final(self)@ == old(self)@
                    &&& final(fills).deep_view() == old(fills).deep_view()
                },
            },
    {
        self.insert_order(OrderType::Buy, order_type, order_price, identifier, qty, fills)
    }

    /// Executes a sell order. See `insert_order`.
    pub fn insert_sell_order(
        &mut self,
        order_type: i32,
        order_price: Price,
        identifier: u64,
        qty: u64,
        fills: &mut Vec<Fill>,
    ) -> (success: bool)
        requires
            old(self).wf(),
        ensures
            final(self).wf(),
            old(fills)@.is_prefix_of(final(fills)@),
            match kind_of_wire(order_type) {
                Some(kind) => {
                    let order = Order {
                        price: order_price,
                        identifiable_order: IdentifiableOrder { id: identifier, qty },
                    };
                    &&& success == order_succeeds(old(self)@, kind, order, OrderType::Sell)
                    &&& final(self)@ == book_after_order(old(self)@, kind, order, OrderType::Sell)
                    &&& final(fills).deep_view() == old(fills).deep_view() + order_fills(
                        old(self)@,
                        kind,
                        order,
                        OrderType::Sell,
                    )
                },
                None => {
                    &&& !success
                    &&& final(self)@ == old(self)@
                    &&& final(fills).deep_view() == old(fills).deep_view()
                },
            },
    {
        self.insert_order(OrderType::Sell, order_type, order_price, identifier, qty, fills)
    }

    /// Cancels the oldest buy order of `identifier` at `order_price` and
    /// tells whether there was one.
    pub fn remove_buy_order(&mut self, order_price: Price, identifier: u64) -> (success: bool)
        requires
            old(self).wf(),
        ensures
            final(self).wf(),
            success == has_order(old(self)@.bids, order_price@, identifier),
            final(self)@ == with_resting_side(
                old(self)@,
                OrderType::Buy,
                cancel_level(old(self)@.bids, order_price@, identifier),
            ),
            !success ==> final(self)@ == old(self)@,
    {
        let identifiable_order = IdentifiableOrder::new(identifier, 0);
        let order = Order::new(order_price, identifiable_order);
        self.orderbook.remove_buy_order(order)
    }

    /// Cancels the oldest sell order of `identifier` at `order_price` and
    /// tells whether there was one.
    pub fn remove_sell_order(&mut self, order_price: Price, identifier: u64) -> (success: bool)
        requires
            old(self).wf(),
        ensures
            final(self).wf(),
            success == has_order(old(self)@.asks, order_price@, identifier),
            final(self)@ == with_resting_side(
                old(self)@,
                OrderType::Sell,
                cancel_level(old(self)@.asks, order_price@, identifier),
            ),
            !success ==> final(self)@ == old(self)@,
    {
        let identifiable_order = IdentifiableOrder::new(identifier, 0);
        let order = Order::new(order_price, identifiable_order);
        self.orderbook.remove_sell_order(order)
    }

    /// The lowest ask price and the total quantity resting at it, or `None`
    /// where no ask rests.
    pub fn get_lowest_ask(&self) -> (r: Option<(Price, u64)>)
        requires
            self.wf(),
        ensures
            match r {
                Some((price, qty)) => self@.asks.len() > 0 && price@ == self@.asks[0].0 && qty
                    == saturated(queue_qty(self@.asks[0].1)),
                None => self@.asks.len() == 0,
            },
    {
        self.orderbook.top_ask()
    }

    /// The highest bid price and the total quantity resting at it, or `None`
    /// where no bid rests.
    pub fn get_highest_bid(&self) -> (r: Option<(Price, u64)>)
        requires
            self.wf(),
        ensures
            match r {
                Some((price, qty)) => self@.bids.len() > 0 && price@ == self@.bids.last().0
                    && qty == saturated(queue_qty(self@.bids.last().1)),
                None => self@.bids.len() == 0,
            },
    {
        self.orderbook.top_bid()
    }

    /// The best `n` bid levels from the highest price down, each as its
    /// price and the total quantity resting at it.
    pub fn get_bids(&self, n: usize) -> (r: Vec<(Price, u64)>)
        requires
            self.wf(),
        ensures
            r@.len() == depth_of(self@.bids, OrderType::Buy, n as nat).len(),
            forall|i: int|
                0 <= i < r@.len() ==> (#[trigger] r@[i]).0@ == depth_of(
                    self@.bids,
                    OrderType::Buy,
                    n as nat,
                )[i].0 && r@[i].1 == depth_of(self@.bids, OrderType::Buy, n as nat)[i].1,
    {
        self.orderbook.depth(OrderType::Buy, n)
    }

    /// The best `n` ask levels from the lowest price up, each as its price
    /// and the total quantity resting at it.
    pub fn get_asks(&self, n: usize) -> (r: Vec<(Price, u64)>)
        requires
            self.wf(),
        ensures
            r@.len() == depth_of(self@.asks, OrderType::Sell, n as nat).len(),
            forall|i: int|
                0 <= i < r@.len() ==> (#[trigger] r@[i]).0@ == depth_of(
                    self@.asks,
                    OrderType::Sell,
                    n as nat,
                )[i].0 && r@[i].1 == depth_of(self@.asks, OrderType::Sell, n as nat)[i].1,
    {
        self.orderbook.depth(OrderType::Sell, n)
    }
}

} // verus!
