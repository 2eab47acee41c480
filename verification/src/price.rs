//! Fixed-point prices: a whole part and hundredths.

use std::cmp::Ordering;
use vstd::prelude::*;

verus! {

/// The pair `(major, minor)` that stands for a price in contracts and as a key.
pub type PriceKey = (usize, u8);

/// A key is a price when its hundredths are at most 99 and it is not `0.00`.
pub open spec fn key_valid(k: PriceKey) -> bool {
    k.1 <= 99 && (k.0 > 0 || k.1 > 0)
}

/// Strict lexicographic order on keys: first the whole part, then the hundredths.
pub open spec fn key_lt(a: PriceKey, b: PriceKey) -> bool {
    a.0 < b.0 || (a.0 == b.0 && a.1 < b.1)
}

/// Lexicographic order on keys, equality included.
pub open spec fn key_le(a: PriceKey, b: PriceKey) -> bool {
    a.0 < b.0 || (a.0 == b.0 && a.1 <= b.1)
}

/// The key that `Price::new` builds from raw parts: hundredths above 99 become
/// 99, and `0.00` becomes `0.01`.
pub open spec fn clamped_key(main_unit: usize, sub_unit: u8) -> PriceKey {
    let sub: u8 = if sub_unit > 99 { 99u8 } else { sub_unit };
    if main_unit > 0 || sub > 0 {
        (main_unit, sub)
    } else {
        (0usize, 1u8)
    }
}

/// A price with two decimal places. Every value satisfies `key_valid`.
#[derive(Clone, Copy, Debug, PartialEq, Eq, Structural, Hash, Ord)]
pub struct Price {
    main_unit: usize,
    sub_unit: u8,
}

impl View for Price {
    type V = PriceKey;

    closed spec fn view(&self) -> PriceKey {
        (self.main_unit, self.sub_unit)
    }
}

/// The key of an optional price.
pub open spec fn opt_key(p: Option<Price>) -> Option<PriceKey> {
    match p {
        Some(p) => Some(p@),
        None => None,
    }
}

impl Price {
    #[verifier::type_invariant]
    spec fn inv(self) -> bool {
        key_valid((self.main_unit, self.sub_unit))
    }

    /// Builds a price from a whole part and hundredths, clamping as
    /// `clamped_key` says.
    pub fn new(main_unit: usize, sub_unit: u8) -> (p: Price)
        ensures
            p@ == clamped_key(main_unit, sub_unit),
            key_valid(p@),
    {
        let sub_unit: u8 = if sub_unit > 99 { 99 } else { sub_unit };
        if main_unit > 0 || sub_unit > 0 {
            Price { main_unit, sub_unit }
        } else {
            Price { main_unit: 0, sub_unit: 1 }
        }
    }

    /// The whole part.
    pub fn main_unit(&self) -> (m: usize)
        ensures
            m == self@.0,
    {
        self.main_unit
    }

    /// The hundredths, always at most 99.
    pub fn sub_unit(&self) -> (s: u8)
        ensures
            s == self@.1,
            s <= 99,
    {
        proof {
            use_type_invariant(self);
        }
        self.sub_unit
    }

    /// The key of this price, which is always valid.
    pub fn key(&self) -> (k: PriceKey)
        ensures
            k == self@,
            key_valid(k),
    {
        proof {
            use_type_invariant(self);
        }
        (self.main_unit, self.sub_unit)
    }

    /// Two prices with the same key are the same price.
    pub proof fn lemma_view_injective(a: Price, b: Price)
        requires
            a@ == b@,
        ensures
            a == b,
    {
    }
}

/// How two keys compare in the lexicographic order.
pub open spec fn key_ordering(a: PriceKey, b: PriceKey) -> Ordering {
    if key_lt(a, b) {
        Ordering::Less
    } else if a == b {
        Ordering::Equal
    } else {
        Ordering::Greater
    }
}

impl PartialOrd for Price {
    /// Compares two prices by their keys: first the whole part, then the
    /// hundredths.
    fn partial_cmp(&self, other: &Price) -> (r: Option<Ordering>) {
        if self.main_unit < other.main_unit {
            Some(Ordering::Less)
        } else if self.main_unit > other.main_unit {
            Some(Ordering::Greater)
        } else if self.sub_unit < other.sub_unit {
            Some(Ordering::Less)
        } else if self.sub_unit > other.sub_unit {
            Some(Ordering::Greater)
        } else {
            Some(Ordering::Equal)
        }
    }
}

impl vstd::std_specs::cmp::PartialOrdSpecImpl for Price {
    open spec fn obeys_partial_cmp_spec() -> bool {
        true
    }

    open spec fn partial_cmp_spec(&self, other: &Price) -> Option<Ordering> {
        Some(key_ordering(self@, other@))
    }
}

} // verus!
