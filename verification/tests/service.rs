use orderbookx::orderbook::Fill;
use orderbookx::price::Price;
use orderbookx::service::{OrderBookApi, OrderKind};

const MARKET: i32 = 0;
const GTC: i32 = 1;
const FOK: i32 = 2;
const IOC: i32 = 3;
const LOC: i32 = 4;

#[test]
fn kinds_are_read_from_the_wire() {
    assert_eq!(OrderKind::from_wire(0), Some(OrderKind::Market));
    assert_eq!(OrderKind::from_wire(1), Some(OrderKind::Gtc));
    assert_eq!(OrderKind::from_wire(2), Some(OrderKind::Fok));
    assert_eq!(OrderKind::from_wire(3), Some(OrderKind::Ioc));
    assert_eq!(OrderKind::from_wire(4), Some(OrderKind::Loc));
    assert_eq!(OrderKind::from_wire(5), None);
    assert_eq!(OrderKind::from_wire(-1), None);
    assert_eq!(OrderKind::from_wire(i32::MAX), None);
}

#[test]
fn unknown_kind_is_refused_and_changes_nothing() {
    let mut api = OrderBookApi::default();
    let mut fills: Vec<Fill> = Vec::new();
    assert!(api.insert_sell_order(GTC, Price::new(2, 0), 1, 10, &mut fills));
    assert!(!api.insert_buy_order(5, Price::new(2, 0), 2, 10, &mut fills));
    assert!(!api.insert_sell_order(-3, Price::new(1, 0), 2, 10, &mut fills));
    assert!(fills.is_empty());
    assert_eq!(api.get_lowest_ask(), Some((Price::new(2, 0), 10)));
    assert_eq!(api.get_highest_bid(), None);
}

#[test]
fn empty_sides_have_no_top_of_book() {
    let api = OrderBookApi::default();
    assert_eq!(api.get_highest_bid(), None);
    assert_eq!(api.get_lowest_ask(), None);
    assert_eq!(api.get_bids(10), vec![]);
    assert_eq!(api.get_asks(10), vec![]);
}

#[test]
fn good_till_cancelled_orders_rest_and_trade() {
    let mut api = OrderBookApi::default();
    let mut fills: Vec<Fill> = Vec::new();
    for i in 0..100usize {
        assert!(api.insert_buy_order(GTC, Price::new(i, 0), 1, 500, &mut fills));
    }
    assert_eq!(api.get_highest_bid(), Some((Price::new(99, 0), 500)));
    for i in (50..100usize).rev() {
        assert!(api.insert_sell_order(GTC, Price::new(i, 0), 1, 500, &mut fills));
    }
    assert_eq!(fills.len(), 50);
    assert_eq!(api.get_highest_bid(), Some((Price::new(49, 0), 500)));
    assert_eq!(api.get_lowest_ask(), None);
    assert_eq!(api.get_bids(2), vec![(Price::new(49, 0), 500), (Price::new(48, 0), 500)]);
}

#[test]
fn market_order_succeeds_even_without_liquidity() {
    let mut api = OrderBookApi::default();
    let mut fills: Vec<Fill> = Vec::new();
    assert!(api.insert_buy_order(MARKET, Price::new(1, 0), 1, 10, &mut fills));
    assert!(fills.is_empty());
    assert_eq!(api.get_highest_bid(), None);
    assert!(api.insert_sell_order(GTC, Price::new(3, 0), 2, 10, &mut fills));
    assert!(api.insert_buy_order(MARKET, Price::new(1, 0), 1, 4, &mut fills));
    assert_eq!(
        fills,
        vec![Fill { taker_owner: 1, maker_owner: 2, price: Price::new(3, 0), qty: 4 }]
    );
    assert_eq!(api.get_lowest_ask(), Some((Price::new(3, 0), 6)));
}

#[test]
fn fill_or_kill_reports_whether_it_traded() {
    let mut api = OrderBookApi::default();
    let mut fills: Vec<Fill> = Vec::new();
    assert!(api.insert_sell_order(GTC, Price::new(3, 0), 2, 10, &mut fills));
    assert!(!api.insert_buy_order(FOK, Price::new(3, 0), 1, 11, &mut fills));
    assert!(!api.insert_buy_order(FOK, Price::new(2, 99), 1, 10, &mut fills));
    assert!(fills.is_empty());
    assert_eq!(api.get_lowest_ask(), Some((Price::new(3, 0), 10)));
    assert!(api.insert_buy_order(FOK, Price::new(3, 0), 1, 10, &mut fills));
    assert_eq!(fills.len(), 1);
    assert_eq!(api.get_lowest_ask(), None);
    assert_eq!(api.get_highest_bid(), None);
}

#[test]
fn immediate_or_cancel_never_rests() {
    let mut api = OrderBookApi::default();
    let mut fills: Vec<Fill> = Vec::new();
    assert!(api.insert_sell_order(GTC, Price::new(3, 0), 2, 10, &mut fills));
    assert!(api.insert_buy_order(IOC, Price::new(5, 0), 1, 25, &mut fills));
    assert_eq!(fills.len(), 1);
    assert_eq!(fills[0].qty, 10);
    assert_eq!(api.get_lowest_ask(), None);
    assert_eq!(api.get_highest_bid(), None);
}

#[test]
fn limit_or_cancel_reports_whether_it_rested() {
    let mut api = OrderBookApi::default();
    let mut fills: Vec<Fill> = Vec::new();
    assert!(api.insert_sell_order(LOC, Price::new(3, 0), 2, 10, &mut fills));
    assert!(!api.insert_buy_order(LOC, Price::new(3, 0), 1, 10, &mut fills));
    assert!(api.insert_buy_order(LOC, Price::new(2, 99), 1, 10, &mut fills));
    assert!(fills.is_empty());
    assert_eq!(api.get_lowest_ask(), Some((Price::new(3, 0), 10)));
    assert_eq!(api.get_highest_bid(), Some((Price::new(2, 99), 10)));
}

#[test]
fn cancel_reports_whether_there_was_an_order() {
    let mut api = OrderBookApi::default();
    let mut fills: Vec<Fill> = Vec::new();
    assert!(api.insert_buy_order(GTC, Price::new(2, 0), 1, 10, &mut fills));
    assert!(api.insert_sell_order(GTC, Price::new(3, 0), 2, 10, &mut fills));
    assert!(!api.remove_buy_order(Price::new(3, 0), 1));
    assert!(!api.remove_sell_order(Price::new(3, 0), 1));
    assert!(!api.remove_buy_order(Price::new(2, 0), 2));
    assert!(api.remove_buy_order(Price::new(2, 0), 1));
    assert!(!api.remove_buy_order(Price::new(2, 0), 1));
    assert!(api.remove_sell_order(Price::new(3, 0), 2));
    assert_eq!(api.get_asks(5), vec![]);
    assert_eq!(api.get_bids(5), vec![]);
}

#[test]
fn service_book_is_never_crossed() {
    let mut api = OrderBookApi::default();
    let mut fills: Vec<Fill> = Vec::new();
    let stream = [
        (true, GTC, 5usize, 10u64),
        (false, GTC, 4, 3),
        (false, LOC, 5, 3),
        (false, LOC, 6, 8),
        (true, IOC, 7, 2),
        (true, GTC, 6, 20),
        (false, MARKET, 1, 9),
        (false, FOK, 5, 100),
        (false, GTC, 2, 40),
        (true, FOK, 2, 5),
    ];
    for (owner, (buy, kind, price, qty)) in stream.iter().enumerate() {
        if *buy {
            api.insert_buy_order(*kind, Price::new(*price, 0), owner as u64, *qty, &mut fills);
        } else {
            api.insert_sell_order(*kind, Price::new(*price, 0), owner as u64, *qty, &mut fills);
        }
        if let (Some((bid, _)), Some((ask, _))) = (api.get_highest_bid(), api.get_lowest_ask()) {
            assert!(bid < ask);
        }
    }
    assert_eq!(api.get_highest_bid(), None);
    assert_eq!(api.get_lowest_ask(), Some((Price::new(2, 0), 23)));
}
