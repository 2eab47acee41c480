//! What matching an incoming order against one side of the book means.

use crate::orderbook::fill::FillEvent;
use crate::orderbook::identifiable_order::IdentifiableOrder;
use crate::orderbook::levels::Level;
use crate::orderbook::side::{
    lemma_queue_qty_front, lemma_remove_keeps_wf, lemma_side_qty_remove, lemma_side_qty_update,
    lemma_update_keeps_wf, queue_qty, side_qty, side_wf,
};
use crate::price::{key_le, PriceKey};
use crate::traits::matching_engine::OrderType;
use vstd::prelude::*;

verus! {

/// The result of a match: the side that is left, the trades in the order in
/// which they were made, and the quantity that was filled.
pub struct MatchOutcome {
    pub levels: Seq<Level>,
    pub fills: Seq<FillEvent>,
    pub filled: nat,
}

/// The position of the best level for an incoming order: the lowest price for
/// a buy, the highest for a sell.
pub open spec fn best_index(levels: Seq<Level>, taker: OrderType) -> int {
    match taker {
        OrderType::Buy => 0,
        OrderType::Sell => levels.len() - 1,
    }
}

/// Whether a level priced `k` may trade with an incoming order under `limit`.
/// Without a limit every level may. A buy accepts prices up to and including
/// its limit, a sell prices down to and including its limit.
pub open spec fn marketable(k: PriceKey, taker: OrderType, limit: Option<PriceKey>) -> bool {
    match limit {
        None => true,
        Some(l) => match taker {
            OrderType::Buy => key_le(k, l),
            OrderType::Sell => key_le(l, k),
        },
    }
}

/// The length of the queue at the best level, 0 on an empty side.
pub open spec fn best_queue_len(levels: Seq<Level>, taker: OrderType) -> nat {
    if levels.len() > 0 {
        levels[best_index(levels, taker)].1.len()
    } else {
        0
    }
}

/// The outcome in which nothing trades.
pub open spec fn no_match(levels: Seq<Level>) -> MatchOutcome {
    MatchOutcome { levels, fills: Seq::empty(), filled: 0 }
}

/// Matches an incoming order of `need` units against a side.
///
/// While quantity is needed and the best level is marketable, the order at
/// the front of that level trades. Where it is no larger than what is still
/// needed it is filled in full and leaves the book, and its level leaves with
/// it when it was the last one there. Otherwise it is filled in part: it
/// stays in front with its quantity reduced, and the match ends.
pub open spec fn match_levels(
    levels: Seq<Level>,
    taker: OrderType,
    taker_owner: u64,
    limit: Option<PriceKey>,
    need: nat,
) -> MatchOutcome
    decreases levels.len(), best_queue_len(levels, taker),
{
    if need == 0 || levels.len() == 0 {
        no_match(levels)
    } else {
        let b = best_index(levels, taker);
        let k = levels[b].0;
        let q = levels[b].1;
        if !marketable(k, taker, limit) || q.len() == 0 {
            no_match(levels)
        } else {
            let head = q[0];
            if head.qty <= need {
                let rest = if q.len() == 1 {
                    levels.remove(b)
                } else {
                    levels.update(b, (k, q.drop_first()))
                };
                let fill = FillEvent {
                    taker_owner,
                    maker_owner: head.id,
                    price: k,
                    qty: head.qty,
                };
                let tail = match_levels(rest, taker, taker_owner, limit, (need - head.qty) as nat);
                MatchOutcome {
                    levels: tail.levels,
                    fills: seq![fill] + tail.fills,
                    filled: (head.qty + tail.filled) as nat,
                }
            } else {
                let reduced = IdentifiableOrder { id: head.id, qty: (head.qty - need) as u64 };
                let fill = FillEvent {
                    taker_owner,
                    maker_owner: head.id,
                    price: k,
                    qty: need as u64,
                };
                MatchOutcome {
                    levels: levels.update(b, (k, q.update(0, reduced))),
                    fills: seq![fill],
                    filled: need,
                }
            }
        }
    }
}

/// The quantity that an incoming order can reach: all that rests at the
/// levels which are marketable for it, from the best level outward up to the
/// first level that is not.
pub open spec fn reachable_qty(levels: Seq<Level>, taker: OrderType, limit: Option<PriceKey>) -> nat
    decreases levels.len(),
{
    if levels.len() == 0 {
        0
    } else {
        let b = best_index(levels, taker);
        if !marketable(levels[b].0, taker, limit) || levels[b].1.len() == 0 {
            0
        } else {
            queue_qty(levels[b].1) + reachable_qty(levels.remove(b), taker, limit)
        }
    }
}

/// The quantity traded by a sequence of fills.
pub open spec fn fills_qty(fills: Seq<FillEvent>) -> nat
    decreases fills.len(),
{
    if fills.len() == 0 {
        0
    } else {
        fills[0].qty as nat + fills_qty(fills.drop_first())
    }
}

/// Matching keeps a side well formed.
pub proof fn lemma_match_wf(
    levels: Seq<Level>,
    taker: OrderType,
    taker_owner: u64,
    limit: Option<PriceKey>,
    need: nat,
)
    requires
        side_wf(levels),
    ensures
        side_wf(match_levels(levels, taker, taker_owner, limit, need).levels),
    decreases levels.len(), best_queue_len(levels, taker),
{
    if need == 0 || levels.len() == 0 {
    } else {
        let b = best_index(levels, taker);
        let k = levels[b].0;
        let q = levels[b].1;
        if !marketable(k, taker, limit) || q.len() == 0 {
        } else {
            let head = q[0];
            if head.qty <= need {
                if q.len() == 1 {
                    lemma_remove_keeps_wf(levels, b);
                    lemma_match_wf(
                        levels.remove(b),
                        taker,
                        taker_owner,
                        limit,
                        (need - head.qty) as nat,
                    );
                } else {
                    lemma_update_keeps_wf(levels, b, q.drop_first());
                    lemma_match_wf(
                        levels.update(b, (k, q.drop_first())),
                        taker,
                        taker_owner,
                        limit,
                        (need - head.qty) as nat,
                    );
                }
            } else {
                let reduced = IdentifiableOrder { id: head.id, qty: (head.qty - need) as u64 };
                lemma_update_keeps_wf(levels, b, q.update(0, reduced));
            }
        }
    }
}

/// Matching neither makes nor loses quantity: what is filled is at most what
/// was needed, it is the sum of the fills, and it is what the side lost.
pub proof fn lemma_match_conserves(
    levels: Seq<Level>,
    taker: OrderType,
    taker_owner: u64,
    limit: Option<PriceKey>,
    need: nat,
)
    ensures
        match_levels(levels, taker, taker_owner, limit, need).filled <= need,
        match_levels(levels, taker, taker_owner, limit, need).filled == fills_qty(
            match_levels(levels, taker, taker_owner, limit, need).fills,
        ),
        side_qty(levels) == side_qty(match_levels(levels, taker, taker_owner, limit, need).levels)
            + match_levels(levels, taker, taker_owner, limit, need).filled,
    decreases levels.len(), best_queue_len(levels, taker),
{
    let out = match_levels(levels, taker, taker_owner, limit, need);
    if need == 0 || levels.len() == 0 {
    } else {
        let b = best_index(levels, taker);
        let k = levels[b].0;
        let q = levels[b].1;
        if !marketable(k, taker, limit) || q.len() == 0 {
        } else {
            let head = q[0];
            lemma_queue_qty_front(q);
            if head.qty <= need {
                let rest = if q.len() == 1 {
                    levels.remove(b)
                } else {
                    levels.update(b, (k, q.drop_first()))
                };
                let tail = match_levels(rest, taker, taker_owner, limit, (need - head.qty) as nat);
                lemma_match_conserves(rest, taker, taker_owner, limit, (need - head.qty) as nat);
                if q.len() == 1 {
                    lemma_side_qty_remove(levels, b);
                    assert(q.drop_first() =~= Seq::<IdentifiableOrder>::empty());
                } else {
                    lemma_side_qty_update(levels, b, (k, q.drop_first()));
                }
                assert(out.fills.drop_first() =~= tail.fills);
                assert(out.fills[0].qty == head.qty);
                assert(fills_qty(out.fills) == head.qty + fills_qty(tail.fills));
            } else {
                let reduced = IdentifiableOrder { id: head.id, qty: (head.qty - need) as u64 };
                let q2 = q.update(0, reduced);
                lemma_queue_qty_front(q2);
                assert(q2.drop_first() =~= q.drop_first());
                lemma_side_qty_update(levels, b, (k, q2));
                assert(out.fills.drop_first() =~= Seq::<FillEvent>::empty());
                assert(fills_qty(Seq::<FillEvent>::empty()) == 0);
                assert(out.fills[0].qty == need);
                assert(fills_qty(out.fills) == need);
            }
        }
    }
}

/// An incoming order is filled as far as the quantity it can reach allows:
/// in full where that covers the need, else by all of it.
pub proof fn lemma_match_fills_reachable(
    levels: Seq<Level>,
    taker: OrderType,
    taker_owner: u64,
    limit: Option<PriceKey>,
    need: nat,
)
    ensures
        match_levels(levels, taker, taker_owner, limit, need).filled == (if need <= reachable_qty(
            levels,
            taker,
            limit,
        ) {
            need
        } else {
            reachable_qty(levels, taker, limit)
        }),
    decreases levels.len(), best_queue_len(levels, taker),
{
    if need == 0 || levels.len() == 0 {
    } else {
        let b = best_index(levels, taker);
        let k = levels[b].0;
        let q = levels[b].1;
        if !marketable(k, taker, limit) || q.len() == 0 {
        } else {
            let head = q[0];
            lemma_queue_qty_front(q);
            if head.qty <= need {
                if q.len() == 1 {
                    assert(q.drop_first() =~= Seq::<IdentifiableOrder>::empty());
                    lemma_match_fills_reachable(
                        levels.remove(b),
                        taker,
                        taker_owner,
                        limit,
                        (need - head.qty) as nat,
                    );
                } else {
                    let rest = levels.update(b, (k, q.drop_first()));
                    assert(rest.remove(b) =~= levels.remove(b));
                    assert(best_index(rest, taker) == b);
                    lemma_match_fills_reachable(
                        rest,
                        taker,
                        taker_owner,
                        limit,
                        (need - head.qty) as nat,
                    );
                }
            }
        }
    }
}

/// On a well-formed side an order without a limit can reach everything.
pub proof fn lemma_reachable_all(levels: Seq<Level>, taker: OrderType)
    requires
        side_wf(levels),
    ensures
        reachable_qty(levels, taker, None) == side_qty(levels),
    decreases levels.len(),
{
    if levels.len() > 0 {
        let b = best_index(levels, taker);
        lemma_remove_keeps_wf(levels, b);
        lemma_reachable_all(levels.remove(b), taker);
        lemma_side_qty_remove(levels, b);
    }
}

} // verus!
