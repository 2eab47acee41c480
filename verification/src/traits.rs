//! The interfaces that the book offers.

pub mod matching_engine;
