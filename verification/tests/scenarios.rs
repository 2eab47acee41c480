use orderbookx::orderbook::{Fill, IdentifiableOrder, Order, OrderBook};
use orderbookx::price::Price;
use orderbookx::traits::matching_engine::{MatchingEngine, OrderType};

fn order(main: usize, sub: u8, owner: u64, qty: u64) -> Order {
    Order::new(Price::new(main, sub), IdentifiableOrder::new(owner, qty))
}

fn fill(taker: u64, maker: u64, main: usize, sub: u8, qty: u64) -> Fill {
    Fill { taker_owner: taker, maker_owner: maker, price: Price::new(main, sub), qty }
}

fn asks_of_hundred(levels: usize) -> OrderBook {
    let mut book = OrderBook::default();
    for i in 1..=levels {
        book.insert_sell_order(order(i, 0, 1, 100));
    }
    book
}

fn total(fills: &[Fill]) -> u64 {
    fills.iter().map(|f| f.qty).sum()
}

#[test]
fn crossing_limit_sell_takes_best_bids_first() {
    let mut book = OrderBook::default();
    book.insert_buy_order(order(1, 0, 1, 50));
    book.insert_buy_order(order(2, 11, 2, 50));
    book.insert_buy_order(order(2, 0, 3, 50));
    let mut fills = Vec::new();

    book.match_and_insert(order(2, 0, 4, 60), OrderType::Sell, &mut fills);

    assert_eq!(fills, vec![fill(4, 2, 2, 11, 50), fill(4, 3, 2, 0, 10)]);
    assert_eq!(book.top_bid(), Some((Price::new(2, 0), 40)));
    assert_eq!(book.highest_bid(), Some((Price::new(2, 0), IdentifiableOrder::new(3, 40))));
    assert_eq!(book.top_ask(), None);
    assert_eq!(
        book.depth(OrderType::Buy, 10),
        vec![(Price::new(2, 0), 40), (Price::new(1, 0), 50)]
    );
}

#[test]
fn market_buy_exhausts_depth() {
    let mut book = asks_of_hundred(5);
    let mut fills = Vec::new();
    let report = book.market_buy(order(1, 0, 5, 500), &mut fills);
    assert_eq!(report, (true, 500, 500));
    assert_eq!(book.top_ask(), None);
    assert_eq!(book.depth(OrderType::Sell, 10), vec![]);
    assert_eq!(
        fills,
        vec![
            fill(5, 1, 1, 0, 100),
            fill(5, 1, 2, 0, 100),
            fill(5, 1, 3, 0, 100),
            fill(5, 1, 4, 0, 100),
            fill(5, 1, 5, 0, 100),
        ]
    );
}

#[test]
fn market_buy_over_reach_fills_what_is_there() {
    let mut book = asks_of_hundred(5);
    let mut fills = Vec::new();
    let report = book.market_buy(order(1, 0, 5, 512), &mut fills);
    assert_eq!(report, (true, 512, 500));
    assert_eq!(book.top_ask(), None);
    assert_eq!(total(&fills), 500);
}

#[test]
fn market_buy_on_empty_book_is_not_accepted() {
    let mut book = OrderBook::default();
    let mut fills = Vec::new();
    let report = book.market_buy(order(1, 0, 5, 512), &mut fills);
    assert_eq!(report, (false, 512, 0));
    assert!(fills.is_empty());
}

#[test]
fn market_order_of_nothing_changes_nothing() {
    let mut book = asks_of_hundred(2);
    let mut fills = Vec::new();
    assert_eq!(book.market_buy(order(1, 0, 5, 0), &mut fills), (true, 0, 0));
    assert!(fills.is_empty());
    assert_eq!(
        book.depth(OrderType::Sell, 10),
        vec![(Price::new(1, 0), 100), (Price::new(2, 0), 100)]
    );
    let mut empty = OrderBook::default();
    assert_eq!(empty.market_sell(order(1, 0, 5, 0), &mut fills), (false, 0, 0));
}

#[test]
fn fifo_tie_break_names_the_oldest_maker() {
    let mut book = OrderBook::default();
    book.insert_buy_order(order(10, 0, 1, 5));
    book.insert_buy_order(order(10, 0, 2, 5));
    book.insert_buy_order(order(10, 0, 3, 5));
    let mut fills = Vec::new();
    let report = book.market_sell(order(1, 0, 9, 1), &mut fills);
    assert_eq!(report, (true, 1, 1));
    assert_eq!(fills, vec![fill(9, 1, 10, 0, 1)]);
    assert_eq!(book.highest_bid(), Some((Price::new(10, 0), IdentifiableOrder::new(1, 4))));
    assert_eq!(book.top_bid(), Some((Price::new(10, 0), 14)));
}

#[test]
fn makers_at_one_price_trade_in_insertion_order() {
    let mut book = OrderBook::default();
    for owner in [7, 3, 9, 3, 1] {
        book.insert_sell_order(order(4, 20, owner, 10));
    }
    let mut fills = Vec::new();
    let report = book.market_buy(order(1, 0, 100, 45), &mut fills);
    assert_eq!(report, (true, 45, 45));
    let makers: Vec<u64> = fills.iter().map(|f| f.maker_owner).collect();
    assert_eq!(makers, vec![7, 3, 9, 3, 1]);
    let quantities: Vec<u64> = fills.iter().map(|f| f.qty).collect();
    assert_eq!(quantities, vec![10, 10, 10, 10, 5]);
    assert_eq!(book.lowest_ask(), Some((Price::new(4, 20), IdentifiableOrder::new(1, 5))));
}

#[test]
fn immediate_or_cancel_discards_the_remainder() {
    let mut book = OrderBook::default();
    book.insert_sell_order(order(1, 0, 1, 120));
    book.insert_sell_order(order(2, 0, 2, 80));
    let mut fills = Vec::new();
    let report = book.immediate_or_cancel_insert(order(3, 0, 5, 500), OrderType::Buy, &mut fills);
    assert_eq!(report, (true, 500, 200));
    assert_eq!(total(&fills), 200);
    assert_eq!(book.top_ask(), None);
    assert_eq!(book.top_bid(), None);
    assert_eq!(book.get_price(), None);
}

#[test]
fn immediate_or_cancel_stops_at_the_limit() {
    let mut book = asks_of_hundred(5);
    let mut fills = Vec::new();
    let report = book.immediate_or_cancel_insert(order(2, 50, 5, 500), OrderType::Buy, &mut fills);
    assert_eq!(report, (true, 500, 200));
    assert_eq!(book.top_ask(), Some((Price::new(3, 0), 100)));
    assert_eq!(book.top_bid(), None);
}

#[test]
fn limit_price_equal_to_best_price_matches() {
    let mut book = asks_of_hundred(3);
    let mut fills = Vec::new();
    let (accepted, requested, filled, left) = book.market_buy_until(order(1, 0, 5, 30), &mut fills);
    assert_eq!((accepted, requested, filled), (true, 30, 30));
    assert_eq!(left, order(1, 0, 5, 0));
    assert_eq!(fills, vec![fill(5, 1, 1, 0, 30)]);

    let mut bids = OrderBook::default();
    bids.insert_buy_order(order(7, 0, 1, 10));
    let (accepted, requested, filled, left) = bids.market_sell_until(order(7, 0, 5, 4), &mut fills);
    assert_eq!((accepted, requested, filled), (true, 4, 4));
    assert_eq!(left, order(7, 0, 5, 0));
}

#[test]
fn limit_that_does_not_cross_matches_nothing() {
    let mut book = asks_of_hundred(3);
    let mut fills = Vec::new();
    let (accepted, requested, filled, left) = book.market_buy_until(order(0, 99, 5, 30), &mut fills);
    assert_eq!((accepted, requested, filled), (true, 30, 0));
    assert_eq!(left, order(0, 99, 5, 30));
    assert!(fills.is_empty());
    assert_eq!(book.top_ask(), Some((Price::new(1, 0), 100)));
}

#[test]
fn match_until_on_empty_side_is_accepted_with_nothing_filled() {
    let mut book = OrderBook::default();
    let mut fills = Vec::new();
    let (accepted, requested, filled, left) = book.market_sell_until(order(1, 0, 5, 30), &mut fills);
    assert_eq!((accepted, requested, filled), (true, 30, 0));
    assert_eq!(left, order(1, 0, 5, 30));
}

#[test]
fn limit_order_rests_with_what_is_left() {
    let mut book = asks_of_hundred(2);
    let mut fills = Vec::new();
    book.match_and_insert(order(1, 50, 8, 150), OrderType::Buy, &mut fills);
    assert_eq!(fills, vec![fill(8, 1, 1, 0, 100)]);
    assert_eq!(book.top_bid(), Some((Price::new(1, 50), 50)));
    assert_eq!(book.highest_bid(), Some((Price::new(1, 50), IdentifiableOrder::new(8, 50))));
    assert_eq!(book.top_ask(), Some((Price::new(2, 0), 100)));
    assert_eq!(book.get_price(), Some(Price::new(1, 50)));
}

#[test]
fn limit_order_filled_in_full_does_not_rest() {
    let mut book = asks_of_hundred(2);
    let mut fills = Vec::new();
    book.match_and_insert(order(5, 0, 8, 150), OrderType::Buy, &mut fills);
    assert_eq!(fills, vec![fill(8, 1, 1, 0, 100), fill(8, 1, 2, 0, 50)]);
    assert_eq!(book.top_bid(), None);
    assert_eq!(book.top_ask(), Some((Price::new(2, 0), 50)));
    assert_eq!(book.get_price(), Some(Price::new(2, 0)));
}

#[test]
fn fill_or_kill_trades_in_full_or_not_at_all() {
    let mut book = asks_of_hundred(3);
    let mut fills = Vec::new();

    let killed = book.fill_or_kill_insert(order(2, 0, 5, 201), OrderType::Buy, &mut fills);
    assert_eq!(killed, (false, 201, 0));
    assert!(fills.is_empty());
    assert_eq!(
        book.depth(OrderType::Sell, 10),
        vec![(Price::new(1, 0), 100), (Price::new(2, 0), 100), (Price::new(3, 0), 100)]
    );

    let filled = book.fill_or_kill_insert(order(2, 0, 5, 200), OrderType::Buy, &mut fills);
    assert_eq!(filled, (true, 200, 200));
    assert_eq!(fills, vec![fill(5, 1, 1, 0, 100), fill(5, 1, 2, 0, 100)]);
    assert_eq!(book.depth(OrderType::Sell, 10), vec![(Price::new(3, 0), 100)]);
}

#[test]
fn fill_or_kill_sell_counts_only_bids_within_the_limit() {
    let mut book = OrderBook::default();
    book.insert_buy_order(order(5, 0, 1, 10));
    book.insert_buy_order(order(4, 0, 2, 10));
    book.insert_buy_order(order(3, 0, 3, 10));
    let mut fills = Vec::new();
    assert_eq!(
        book.fill_or_kill_insert(order(4, 0, 9, 21), OrderType::Sell, &mut fills),
        (false, 21, 0)
    );
    assert_eq!(
        book.fill_or_kill_insert(order(4, 0, 9, 15), OrderType::Sell, &mut fills),
        (true, 15, 15)
    );
    assert_eq!(fills, vec![fill(9, 1, 5, 0, 10), fill(9, 2, 4, 0, 5)]);
    assert_eq!(book.top_bid(), Some((Price::new(4, 0), 5)));
}

#[test]
fn limit_or_cancel_rests_only_when_it_does_not_cross() {
    let mut book = asks_of_hundred(2);
    let mut fills = Vec::new();

    let rejected = book.limit_or_cancel_insert(order(1, 0, 5, 10), OrderType::Buy, &mut fills);
    assert_eq!(rejected, (false, 10, 0));
    assert_eq!(book.top_bid(), None);

    let rested = book.limit_or_cancel_insert(order(0, 99, 5, 10), OrderType::Buy, &mut fills);
    assert_eq!(rested, (true, 10, 0));
    assert_eq!(book.top_bid(), Some((Price::new(0, 99), 10)));
    assert!(fills.is_empty());

    let rejected = book.limit_or_cancel_insert(order(0, 99, 6, 10), OrderType::Sell, &mut fills);
    assert_eq!(rejected, (false, 10, 0));
    assert_eq!(book.top_ask(), Some((Price::new(1, 0), 100)));
}

#[test]
fn quantity_is_conserved_by_every_match() {
    let mut book = OrderBook::default();
    let mut resting: u64 = 0;
    for (i, qty) in [30u64, 12, 7, 55, 1, 90].iter().enumerate() {
        book.insert_sell_order(order(1 + i % 3, 0, i as u64, *qty));
        resting += qty;
    }
    for need in [0u64, 1, 29, 40, 500] {
        let mut fills = Vec::new();
        let before: u64 = book.depth(OrderType::Sell, usize::MAX).iter().map(|l| l.1).sum();
        assert_eq!(before, resting);
        let (accepted, requested, filled, left) =
            book.market_buy_until(order(9, 0, 77, need), &mut fills);
        assert!(accepted);
        assert_eq!(requested, need);
        assert_eq!(requested, filled + left.get_order().get_qty());
        assert_eq!(filled, total(&fills));
        resting -= filled;
    }
    assert_eq!(resting, 0);
    assert_eq!(book.top_ask(), None);
}

#[test]
fn fills_are_appended_behind_what_the_sink_holds() {
    let mut book = asks_of_hundred(1);
    let earlier = fill(1, 2, 3, 4, 5);
    let mut fills = vec![earlier];
    book.market_buy(order(1, 0, 5, 10), &mut fills);
    assert_eq!(fills, vec![earlier, fill(5, 1, 1, 0, 10)]);
}

#[test]
fn round_trip_leaves_the_book_empty() {
    let placed = [(3usize, 40u64), (1, 25), (3, 10), (2, 60), (1, 5)];
    let mut book = OrderBook::default();
    for (i, (price, qty)) in placed.iter().enumerate() {
        book.insert_buy_order(order(*price, 0, i as u64, *qty));
    }
    let mut fills = Vec::new();
    for (price, qty) in placed.iter().rev() {
        let report = book.market_sell(order(*price, 0, 99, *qty), &mut fills);
        assert_eq!(report, (true, *qty, *qty));
    }
    assert_eq!(book.top_bid(), None);
    assert_eq!(book.depth(OrderType::Buy, usize::MAX), vec![]);
    assert_eq!(total(&fills), 140);
}

#[test]
fn book_stays_uncrossed_under_limit_orders() {
    let mut book = OrderBook::default();
    let mut fills = Vec::new();
    let stream = [
        (OrderType::Buy, 5usize, 10u64),
        (OrderType::Sell, 7, 10),
        (OrderType::Buy, 7, 4),
        (OrderType::Sell, 5, 30),
        (OrderType::Buy, 6, 50),
        (OrderType::Sell, 6, 20),
        (OrderType::Sell, 1, 100),
        (OrderType::Buy, 9, 70),
    ];
    for (i, (side, price, qty)) in stream.iter().enumerate() {
        book.match_and_insert(order(*price, 0, i as u64, *qty), *side, &mut fills);
        if let (Some((bid, _)), Some((ask, _))) = (book.top_bid(), book.top_ask()) {
            assert!(bid < ask);
        }
    }
    assert_eq!(book.top_bid(), None);
    assert_eq!(book.top_ask(), Some((Price::new(1, 0), 20)));
    assert_eq!(book.depth(OrderType::Sell, 5), vec![(Price::new(1, 0), 20), (Price::new(7, 0), 6)]);
}
