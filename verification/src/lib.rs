//! A limit-order matching engine for a single instrument: a two-sided book of
//! resting orders kept in price/time priority, and the matching rules that run
//! incoming orders against it.

pub mod orderbook;
pub mod price;
pub mod service;
pub mod traits;
