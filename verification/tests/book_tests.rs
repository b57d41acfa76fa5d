use std::collections::{BTreeMap, VecDeque};

use cex_v1::models::store::{OrderBook, OrderSide, OrderStatus, OrderType, RestingOrder};

fn resting(id: &str, user: &str, side: OrderSide, price: i64, qty: i64, filled: i64) -> RestingOrder {
    RestingOrder {
        order_id: id.to_string(),
        user_id: user.to_string(),
        side,
        order_type: OrderType::Limit,
        symbol: "SOL".to_string(),
        price,
        qty,
        filled_qty: filled,
        status: OrderStatus::Open,
        created_at: 0,
    }
}

fn book_with_asks() -> OrderBook {
    let mut asks = BTreeMap::new();
    asks.insert(100, VecDeque::from([resting("a1", "m1", OrderSide::Sell, 100, 5, 0), resting("a2", "m2", OrderSide::Sell, 100, 4, 1)]));
    asks.insert(102, VecDeque::from([resting("a3", "m3", OrderSide::Sell, 102, 10, 0)]));
    let mut bids = BTreeMap::new();
    bids.insert(90, VecDeque::from([resting("b1", "m4", OrderSide::Buy, 90, 3, 0)]));
    OrderBook { bids, asks }
}

#[test]
fn buy_takes_lowest_asks_first_in_time_order() {
    let mut book = book_with_asks();
    let r = book.match_limit("taker", OrderSide::Buy, 102, 10);
    let got: Vec<(i64, i64, String, bool, i64)> = r
        .fills
        .iter()
        .map(|f| (f.price, f.qty, f.maker_order_id.clone(), f.is_maker_fully_filled, f.maker_total_qty))
        .collect();
    assert_eq!(
        got,
        vec![
            (100, 5, "a1".to_string(), true, 5),
            (100, 3, "a2".to_string(), true, 4),
            (102, 2, "a3".to_string(), false, 10),
        ]
    );
    for f in &r.fills {
        assert_eq!(f.taker_user_id, "taker");
        assert_eq!(f.taker_side, OrderSide::Buy);
        assert_eq!(f.fill_id.len(), 36);
    }
    assert_eq!(r.filled_qty, 10);
    assert_eq!(r.remaining_qty, 0);
    assert_eq!(r.requested_price, 102);
    assert_eq!(r.taker_final_status, OrderStatus::Filled);
    assert!(!book.asks.contains_key(&100));
    let level = book.asks.get(&102).unwrap();
    assert_eq!(level.len(), 1);
    assert_eq!(level[0].filled_qty, 2);
    assert_eq!(book.bids.len(), 1);
}

#[test]
fn buy_stops_at_its_limit_price() {
    let mut book = book_with_asks();
    let r = book.match_limit("taker", OrderSide::Buy, 101, 20);
    assert_eq!(r.fills.len(), 2);
    assert_eq!(r.filled_qty, 8);
    assert_eq!(r.remaining_qty, 12);
    assert_eq!(r.taker_final_status, OrderStatus::PartialFilled);
    assert_eq!(book.asks.len(), 1);
    assert!(book.asks.keys().all(|p| *p > 101));
}

#[test]
fn non_crossing_order_gets_no_fills() {
    let mut book = book_with_asks();
    let r = book.match_limit("taker", OrderSide::Buy, 99, 5);
    assert!(r.fills.is_empty());
    assert_eq!(r.filled_qty, 0);
    assert_eq!(r.remaining_qty, 5);
    assert_eq!(r.taker_final_status, OrderStatus::Open);
    assert_eq!(book.asks.len(), 2);
}

#[test]
fn sell_takes_highest_bids_first() {
    let mut book = book_with_asks();
    book.bids.insert(95, VecDeque::from([resting("b2", "m5", OrderSide::Buy, 95, 2, 0)]));
    let r = book.match_limit("seller", OrderSide::Sell, 90, 4);
    let got: Vec<(i64, i64)> = r.fills.iter().map(|f| (f.price, f.qty)).collect();
    assert_eq!(got, vec![(95, 2), (90, 2)]);
    assert_eq!(r.remaining_qty, 0);
    assert_eq!(book.bids.get(&90).unwrap()[0].filled_qty, 2);
    assert!(!book.bids.contains_key(&95));
    assert_eq!(book.asks.len(), 2);
}

#[test]
fn non_positive_quantity_matches_nothing() {
    let mut book = book_with_asks();
    let r = book.match_limit("taker", OrderSide::Buy, 200, 0);
    assert!(r.fills.is_empty());
    assert_eq!(r.remaining_qty, 0);
    assert_eq!(r.filled_qty, 0);
    assert_eq!(r.taker_final_status, OrderStatus::Open);
    let r = book.match_limit("taker", OrderSide::Buy, 200, -3);
    assert!(r.fills.is_empty());
    assert_eq!(r.remaining_qty, -3);
    assert_eq!(r.filled_qty, 0);
}

#[test]
fn fills_add_up_and_respect_priority() {
    let mut book = book_with_asks();
    let r = book.match_limit("taker", OrderSide::Buy, 1000, 13);
    let total: i64 = r.fills.iter().map(|f| f.qty).sum();
    assert_eq!(total, r.filled_qty);
    assert!(r.fills.iter().all(|f| f.qty > 0 && f.price <= 1000));
    assert!(r.fills.windows(2).all(|w| w[0].price <= w[1].price));
    let open_before: i64 = 5 + 3 + 10;
    let open_after: i64 = book.asks.values().flat_map(|q| q.iter()).map(|o| o.qty - o.filled_qty).sum();
    assert_eq!(open_before - open_after, r.filled_qty);
}

#[test]
fn unfilled_remainder_leaves_no_crossing_price() {
    let mut book = book_with_asks();
    let r = book.match_limit("taker", OrderSide::Buy, 100, 50);
    assert!(r.remaining_qty > 0);
    assert!(book.asks.keys().all(|p| *p > 100));
}

#[test]
fn copied_book_matches_like_the_book() {
    for (side, price, qty) in [(OrderSide::Buy, 102, 10), (OrderSide::Buy, 101, 20), (OrderSide::Sell, 80, 2), (OrderSide::Buy, 50, 3)] {
        let mut book = book_with_asks();
        let levels = |b: &OrderBook| -> Vec<(i64, Vec<(String, i64)>)> {
            b.asks.iter().map(|(p, q)| (*p, q.iter().map(|o| (o.order_id.clone(), o.filled_qty)).collect())).collect()
        };
        let before = levels(&book);
        let mut trial = book.copy();
        let t = trial.match_limit("t", side, price, qty);
        assert_eq!(levels(&book), before);
        let r = book.match_limit("t", side, price, qty);
        assert_eq!(t.remaining_qty, r.remaining_qty);
        let seen = |m: &cex_v1::models::store::MatchResult| -> Vec<(i64, i64, String, String)> {
            m.fills.iter().map(|f| (f.price, f.qty, f.maker_user_id.clone(), f.maker_order_id.clone())).collect()
        };
        assert_eq!(seen(&t), seen(&r));
        assert_eq!(levels(&trial), levels(&book));
    }
}

#[test]
fn filled_makers_leave_and_a_partly_filled_one_stays_first() {
    let mut book = book_with_asks();
    // a1 (5 open) is filled, a2 (3 open) gets 1 of 3
    let r = book.match_limit("taker", OrderSide::Buy, 100, 6);
    let full: Vec<(String, bool)> = r.fills.iter().map(|f| (f.maker_order_id.clone(), f.is_maker_fully_filled)).collect();
    assert_eq!(full, vec![("a1".to_string(), true), ("a2".to_string(), false)]);
    let level = book.asks.get(&100).unwrap();
    assert_eq!(level.len(), 1);
    assert_eq!((level[0].order_id.as_str(), level[0].filled_qty, level[0].qty), ("a2", 2, 4));
    // now a2 is filled and the level goes
    let r = book.match_limit("taker", OrderSide::Buy, 100, 2);
    assert!(r.fills[0].is_maker_fully_filled);
    assert!(book.asks.get(&100).is_none());
}
