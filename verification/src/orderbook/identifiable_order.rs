//! A resting order: who placed it and how much of it is left.

use vstd::prelude::*;

verus! {

/// The owner of an order and the quantity of it that is still open.
#[derive(Clone, Copy, Debug, PartialEq, Eq, Structural, PartialOrd)]
pub struct IdentifiableOrder {
    pub id: u64,
    pub qty: u64,
}

impl IdentifiableOrder {
    /// An order of `qty` units placed by the owner `id`.
    pub fn new(id: u64, qty: u64) -> (o: IdentifiableOrder)
        ensures
            o == (IdentifiableOrder { id, qty }),
    {
        IdentifiableOrder { id, qty }
    }

    /// The owner of the order.
    pub fn get_id(&self) -> (id: u64)
        ensures
            id == self.id,
    {
        self.id
    }

    /// The quantity that is still open.
    pub fn get_qty(&self) -> (qty: u64)
        ensures
            qty == self.qty,
    {
        self.qty
    }

    /// Sets the open quantity and leaves the owner as it is.
    pub fn set_qty(&mut self, qty: u64)
        ensures
            *final(self) == (IdentifiableOrder { id: old(self).id, qty }),
    {
        self.qty = qty;
    }
}

impl Default for IdentifiableOrder {
    /// The order of owner 0 with nothing open.
    fn default() -> (o: IdentifiableOrder)
        ensures
            o == (IdentifiableOrder { id: 0, qty: 0 }),
    {
        IdentifiableOrder { id: 0, qty: 0 }
    }
}

} // verus!
