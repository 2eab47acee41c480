//! The order types that a matching engine executes.

use crate::orderbook::fill::Fill;
use crate::orderbook::matching::fills_qty;
use crate::orderbook::orders::Order;
use vstd::prelude::*;

verus! {

/// The side of an order. A buy trades against the asks, lowest price first;
/// a sell trades against the bids, highest price first.
#[derive(Clone, Copy, Debug, PartialEq, Eq, Structural)]
pub enum OrderType {
    Buy,
    Sell,
}

/// What became of an order: whether it was accepted, the quantity it asked
/// for, and the quantity that was filled.
pub type ExecutionReport = (bool, u64, u64);

/// A matching engine for one instrument.
///
/// Every operation hands the trades it makes to `fills`, appending them in
/// the order in which they were made and leaving what `fills` already holds
/// untouched. Quantity is conserved: what an operation reports as filled is
/// the sum of the trades it appended, and it never exceeds what the order
/// asked for. Iceberg, stop and one-cancels-other orders are not offered.
///
/// What is stated here holds of every engine; an implementation states in
/// addition which orders trade and what is left in its book.
pub trait MatchingEngine: Sized {
    /// The invariant of the engine's book. Every operation expects it and
    /// keeps it.
    spec fn ready(&self) -> bool;

    /// Matches a buy against the asks priced at or below its limit and
    /// returns it with the quantity that is left.
    fn market_buy_until(&mut self, buy_order: Order, fills: &mut Vec<Fill>) -> (r: (
        bool,
        u64,
        u64,
        Order,
    ))
        requires
            old(self).ready(),
        ensures
            final(self).ready(),
            r.1 == buy_order.identifiable_order.qty,
            r.1 == r.2 + r.3.identifiable_order.qty,
            r.3.price == buy_order.price,
            r.3.identifiable_order.id == buy_order.identifiable_order.id,
            old(fills)@.is_prefix_of(final(fills)@),
            r.2 == fills_qty(final(fills).deep_view().skip(old(fills)@.len() as int)),
    ;

    /// Matches a sell against the bids priced at or above its limit and
    /// returns it with the quantity that is left.
    fn market_sell_until(&mut self, sell_order: Order, fills: &mut Vec<Fill>) -> (r: (
        bool,
        u64,
        u64,
        Order,
    ))
        requires
            old(self).ready(),
        ensures
            final(self).ready(),
            r.1 == sell_order.identifiable_order.qty,
            r.1 == r.2 + r.3.identifiable_order.qty,
            r.3.price == sell_order.price,
            r.3.identifiable_order.id == sell_order.identifiable_order.id,
            old(fills)@.is_prefix_of(final(fills)@),
            r.2 == fills_qty(final(fills).deep_view().skip(old(fills)@.len() as int)),
    ;

    /// Market buy: matches against the asks at any price. What cannot be
    /// filled is dropped.
    fn market_buy(&mut self, buy_order: Order, fills: &mut Vec<Fill>) -> (r: ExecutionReport)
        requires
            old(self).ready(),
        ensures
            final(self).ready(),
            r.1 == buy_order.identifiable_order.qty,
            r.2 <= r.1,
            old(fills)@.is_prefix_of(final(fills)@),
            r.2 == fills_qty(final(fills).deep_view().skip(old(fills)@.len() as int)),
    ;

    /// Market sell: matches against the bids at any price. What cannot be
    /// filled is dropped.
    fn market_sell(&mut self, sell_order: Order, fills: &mut Vec<Fill>) -> (r: ExecutionReport)
        requires
            old(self).ready(),
        ensures
            final(self).ready(),
            r.1 == sell_order.identifiable_order.qty,
            r.2 <= r.1,
            old(fills)@.is_prefix_of(final(fills)@),
            r.2 == fills_qty(final(fills).deep_view().skip(old(fills)@.len() as int)),
    ;

    /// Limit order, good till cancelled: matches up to the limit, and what is
    /// left rests in the book on the order's own side.
    fn match_and_insert(&mut self, order: Order, order_type: OrderType, fills: &mut Vec<Fill>)
        requires
            old(self).ready(),
        ensures
            final(self).ready(),
            old(fills)@.is_prefix_of(final(fills)@),
    ;

    /// Limit or cancel: rests in the book unless it could trade at once, in
    /// which case it is rejected and nothing changes.
    fn limit_or_cancel_insert(
        &mut self,
        order: Order,
        order_type: OrderType,
        fills: &mut Vec<Fill>,
    ) -> (r: ExecutionReport)
        requires
            old(self).ready(),
        ensures
            final(self).ready(),
            r.1 == order.identifiable_order.qty,
            r.2 == 0,
            final(fills)@ == old(fills)@,
    ;

    /// Immediate or cancel: matches up to the limit, and what is left is
    /// dropped.
    fn immediate_or_cancel_insert(
        &mut self,
        order: Order,
        order_type: OrderType,
        fills: &mut Vec<Fill>,
    ) -> (r: ExecutionReport)
        requires
            old(self).ready(),
        ensures
            final(self).ready(),
            r.1 == order.identifiable_order.qty,
            r.2 <= r.1,
            old(fills)@.is_prefix_of(final(fills)@),
            r.2 == fills_qty(final(fills).deep_view().skip(old(fills)@.len() as int)),
    ;

    /// Fill or kill: trades in full at once within the limit, or not at all.
    fn fill_or_kill_insert(
        &mut self,
        order: Order,
        order_type: OrderType,
        fills: &mut Vec<Fill>,
    ) -> (r: ExecutionReport)
        requires
            old(self).ready(),
        ensures
            final(self).ready(),
            r.1 == order.identifiable_order.qty,
            r.2 == r.1 || r.2 == 0,
            old(fills)@.is_prefix_of(final(fills)@),
            r.2 == fills_qty(final(fills).deep_view().skip(old(fills)@.len() as int)),
    ;
}

} // verus!
