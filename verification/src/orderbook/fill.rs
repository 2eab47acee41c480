//! Fill events: one for every trade between an incoming order and a resting
//! one.

use crate::price::{Price, PriceKey};
use vstd::prelude::*;

verus! {

/// A trade as the engine reports it: the owner of the incoming order, the
/// owner of the resting order, the resting order's price and the quantity
/// that changed hands.
#[derive(Clone, Copy, Debug, PartialEq, Eq, Structural)]
pub struct Fill {
    pub taker_owner: u64,
    pub maker_owner: u64,
    pub price: Price,
    pub qty: u64,
}

/// A trade in contracts, with the price by its key.
pub struct FillEvent {
    pub taker_owner: u64,
    pub maker_owner: u64,
    pub price: PriceKey,
    pub qty: u64,
}

impl View for Fill {
    type V = FillEvent;

    open spec fn view(&self) -> FillEvent {
        FillEvent {
            taker_owner: self.taker_owner,
            maker_owner: self.maker_owner,
            price: self.price@,
            qty: self.qty,
        }
    }
}

impl DeepView for Fill {
    type V = FillEvent;

    open spec fn deep_view(&self) -> FillEvent {
        self@
    }
}

/// Appending a fill to a log appends its event to the events of the log.
pub proof fn lemma_log_push(before: Vec<Fill>, after: Vec<Fill>, fill: Fill)
    requires
        after@ == before@.push(fill),
    ensures
        after.deep_view() == before.deep_view().push(fill@),
        before@.is_prefix_of(after@),
{
    assert(after.deep_view() =~= before.deep_view().push(fill@));
}

} // verus!
