use orderbookx::orderbook::{Fill, IdentifiableOrder, Order, OrderBook, OrderList};
use orderbookx::price::Price;
use orderbookx::traits::matching_engine::{MatchingEngine, OrderType};
use rand::rngs::StdRng;
use rand::{Rng, SeedableRng};
use std::collections::hash_map::DefaultHasher;
use std::hash::Hasher;

fn pseudorandom_order(rng: &mut StdRng) -> Order {
    let price = rng.gen_range(1..=100) as f64;
    let mut hasher = DefaultHasher::new();
    hasher.write_i64(price as i64);
    let qty = hasher.finish() % 250_000;
    let identifiable_order = IdentifiableOrder::new(1, qty);
    Order::new(Price::new(price as usize, 0), identifiable_order)
}

// Pseudorandom Fill
fn fill_bids_pseudorandom(seed: u64) -> (OrderList, Vec<Order>) {
    let mut bid_list = OrderList::default();
    let mut remove_list = vec![];
    let mut rng = StdRng::seed_from_u64(seed);

    for _ in 0..1000 {
        let order = pseudorandom_order(&mut rng);
        remove_list.push(order.clone());
        bid_list.insert_order(order);
    }

    (bid_list, remove_list)
}

// Pseudorandom Fill
fn fill_asks_pseudorandom(seed: u64) -> (OrderList, Vec<Order>) {
    let mut ask_list = OrderList::default();
    let mut remove_list = vec![];
    let mut rng = StdRng::seed_from_u64(seed);

    for _ in 0..1000 {
        let order = pseudorandom_order(&mut rng);
        remove_list.push(order.clone());
        ask_list.insert_order(order);
    }

    (ask_list, remove_list)
}

// Pseudorandom Orders
fn generate_orders_pseudorandom(amount: u64, seed: u64) -> Vec<Order> {
    let mut orders = vec![];
    let mut rng = StdRng::seed_from_u64(seed);

    for _ in 0..amount {
        orders.push(pseudorandom_order(&mut rng));
    }

    orders
}

fn remove(mut order_book: OrderBook, buy_remove_list: Vec<Order>, sell_remove_list: Vec<Order>) {
    for remove_order in buy_remove_list {
        order_book.remove_buy_order(remove_order);
    }
    for remove_order in sell_remove_list {
        order_book.remove_sell_order(remove_order);
    }
    assert_eq!(order_book.depth(OrderType::Buy, usize::MAX).len(), 0);
    assert_eq!(order_book.depth(OrderType::Sell, usize::MAX).len(), 0);
}

#[test]
fn test_inserts() {
    let (buy_side, _) = fill_bids_pseudorandom(1);
    assert_eq!(buy_side.len(), 100);
    let (sell_side, _) = fill_asks_pseudorandom(2);
    assert_eq!(sell_side.len(), 100);
}

#[test]
fn test_inserts_remove() {
    let (buy_side, buy_remove_list) = fill_bids_pseudorandom(3);
    let (sell_side, sell_remove_list) = fill_bids_pseudorandom(4);
    let order_book = OrderBook::new(buy_side, sell_side);
    remove(order_book, buy_remove_list, sell_remove_list);
}

#[test]
fn test_insert_match_remove() {
    let (bids, buy_remove_list) = fill_bids_pseudorandom(5);
    let (asks, sell_remove_list) = fill_bids_pseudorandom(6);
    let mut order_book = OrderBook::new(bids, asks);
    let mut fills: Vec<Fill> = Vec::new();
    // Put in equivalent buy limit orders now as sell market orders
    // Empties the orderbook completely (qty of all sell market orders == qty of all buy limit orders)
    for order in buy_remove_list {
        order_book.market_sell(order, &mut fills);
    }

    // Put in equivalent sell limit orders now as buy market orders
    // Should empty the orderbook completely (qty of all buy market orders == qty of all sell limit orders)
    for order in sell_remove_list {
        order_book.market_buy(order, &mut fills);
    }
    assert_eq!(order_book.depth(OrderType::Buy, usize::MAX).len(), 0);
    assert_eq!(order_book.depth(OrderType::Sell, usize::MAX).len(), 0);
}

#[test]
fn test_insert_random_limit_orders_remove() {
    let (bids, _) = fill_bids_pseudorandom(7);
    let orders = generate_orders_pseudorandom(1000, 8);
    let mut order_book = OrderBook::new(bids, OrderList::default());
    let mut fills: Vec<Fill> = Vec::new();

    for order in orders {
        order_book.match_and_insert(order, OrderType::Sell, &mut fills);
    }
    println!(
        "Buy:\n{:?}\nSell:\n{:?}",
        order_book.depth(OrderType::Buy, usize::MAX),
        order_book.depth(OrderType::Sell, usize::MAX)
    );
}

/*
    Market Buy Tests
*/

/// Market Buy Test with randomly filled orderbook
#[test]
fn test_market_buy_random() {
    let (sell_side, _) = fill_asks_pseudorandom(9);
    let mut order_book = OrderBook::new(OrderList::default(), sell_side);
    let mut fills: Vec<Fill> = Vec::new();
    let identifiable_order = IdentifiableOrder::new(5, 512);
    let result = order_book.market_buy(Order::new(Price::new(1, 0), identifiable_order), &mut fills);
    assert_eq!(result, (true, 512, 512));
}

/// Normal Market Buy Test.
#[test]
fn test_market_buy_normal() {
    let mut order_book = OrderBook::default();
    let mut fills: Vec<Fill> = Vec::new();
    // Fill orderbook
    for i in 1..=10 {
        let price = Price::new(i, 0);
        let qty = 100;
        let identifiable_order = IdentifiableOrder::new(1, qty);
        let order = Order::new(price.into(), identifiable_order);
        order_book.insert_sell_order(order);
    }

    let identifiable_order = IdentifiableOrder::new(5, 512);
    let result = order_book.market_buy(Order::new(Price::new(1, 0), identifiable_order), &mut fills);
    assert_eq!(result, (true, 512, 512));
}

/// Market Buy Full Fill Test
#[test]
fn test_market_buy_full_fill() {
    let mut order_book = OrderBook::default();
    let mut fills: Vec<Fill> = Vec::new();
    // Fill orderbook
    for i in 1..=5 {
        let price = Price::new(i, 0);
        let qty = 100;
        let identifiable_order = IdentifiableOrder::new(1, qty);
        let order = Order::new(price.into(), identifiable_order);
        order_book.insert_sell_order(order);
    }

    let identifiable_order = IdentifiableOrder::new(5, 500);
    let result = order_book.market_buy(Order::new(Price::new(1, 0), identifiable_order), &mut fills);
    assert_eq!(result, (true, 500, 500));
}

/// Market Buy more than Orderbook has test
#[test]
fn test_market_buy_exceeding_orderbook() {
    let mut order_book = OrderBook::default();
    let mut fills: Vec<Fill> = Vec::new();
    // Fill orderbook
    for i in 1..=5 {
        let price = Price::new(i, 0);
        let qty = 100;
        let identifiable_order = IdentifiableOrder::new(1, qty);
        let order = Order::new(price.into(), identifiable_order);
        order_book.insert_sell_order(order);
    }

    let identifiable_order = IdentifiableOrder::new(5, 512);
    let result = order_book.market_buy(Order::new(Price::new(1, 0), identifiable_order), &mut fills);
    assert_eq!(result, (true, 512, 500));
}

/// Orderbook Empty Market Buy Test
#[test]
fn test_market_buy_empty_book() {
    let mut order_book = OrderBook::default();
    let mut fills: Vec<Fill> = Vec::new();
    let identifiable_order = IdentifiableOrder::new(5, 512);
    let result = order_book.market_buy(Order::new(Price::new(1, 0), identifiable_order), &mut fills);
    assert_eq!(result, (false, 512, 0));
}

/*
    Market Sell Tests
*/

/// Market Sell Test with randomly filled orderbook
#[test]
fn test_market_sell_random() {
    let (buy_side, _) = fill_bids_pseudorandom(10);
    let mut order_book = OrderBook::new(buy_side, OrderList::default());
    let mut fills: Vec<Fill> = Vec::new();
    let identifiable_order = IdentifiableOrder::new(5, 512);
    let result =
        order_book.market_sell(Order::new(Price::new(1, 0), identifiable_order), &mut fills);
    assert_eq!(result, (true, 512, 512));
}

/// Normal Market Sell Test.
#[test]
fn test_market_sell_normal() {
    let mut order_book = OrderBook::default();
    let mut fills: Vec<Fill> = Vec::new();
    // Fill orderbook
    for i in 1..=10 {
        let price = Price::new(i, 0);
        let qty = 100;
        let identifiable_order = IdentifiableOrder::new(1, qty);
        let order = Order::new(price.into(), identifiable_order);
        order_book.insert_buy_order(order);
    }

    let identifiable_order = IdentifiableOrder::new(5, 512);
    let result =
        order_book.market_sell(Order::new(Price::new(1, 0), identifiable_order), &mut fills);
    assert_eq!(result, (true, 512, 512));
}

/// Market Sell Full Fill Test
#[test]
fn test_market_sell_full_fill() {
    let mut order_book = OrderBook::default();
    let mut fills: Vec<Fill> = Vec::new();
    // Fill orderbook
    for i in 1..=5 {
        let price = Price::new(i, 0);
        let qty = 100;
        let identifiable_order = IdentifiableOrder::new(1, qty);
        let order = Order::new(price.into(), identifiable_order);
        order_book.insert_buy_order(order);
    }
    println!("Created Orderbook: {:?}", order_book);
    let identifiable_order = IdentifiableOrder::new(5, 500);
    let result =
        order_book.market_sell(Order::new(Price::new(1, 0), identifiable_order), &mut fills);
    assert_eq!(result, (true, 500, 500));
}

/// Market Buy more than Orderbook has test
#[test]
fn test_market_sell_exceeding_orderbook() {
    let mut order_book = OrderBook::default();
    let mut fills: Vec<Fill> = Vec::new();
    // Fill orderbook
    for i in 1..=5 {
        let price = Price::new(i, 0);
        let qty = 100;
        let identifiable_order = IdentifiableOrder::new(1, qty);
        let order = Order::new(price.into(), identifiable_order);
        order_book.insert_buy_order(order);
    }

    let identifiable_order = IdentifiableOrder::new(5, 512);
    let result =
        order_book.market_sell(Order::new(Price::new(1, 0), identifiable_order), &mut fills);
    assert_eq!(result, (true, 512, 500));
}

/// Orderbook Empty Market Buy Test
#[test]
fn test_market_sell_empty_book() {
    let mut order_book = OrderBook::default();
    let mut fills: Vec<Fill> = Vec::new();
    let identifiable_order = IdentifiableOrder::new(5, 512);
    let result =
        order_book.market_sell(Order::new(Price::new(1, 0), identifiable_order), &mut fills);
    assert_eq!(result, (false, 512, 0));
}
