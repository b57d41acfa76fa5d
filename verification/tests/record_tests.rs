use cex_v1::models::store::{create_exchange_store, FillEvent, MatchResult, OrderSide, OrderStatus, OrderType};

fn ev(id: &str, maker_order: &str, qty: i64, full: bool) -> FillEvent {
    FillEvent {
        fill_id: id.to_string(),
        price: 50,
        qty,
        maker_user_id: "maker".to_string(),
        maker_order_id: maker_order.to_string(),
        taker_user_id: "taker".to_string(),
        taker_side: OrderSide::Buy,
        is_maker_fully_filled: full,
        maker_total_qty: 10,
    }
}

#[test]
fn record_match_updates_taker_makers_and_log() {
    let mut store = create_exchange_store();
    let result = MatchResult {
        fills: vec![ev("f1", "m1", 4, false), ev("f2", "m1", 6, true), ev("f3", "m2", 2, true)],
        remaining_qty: 3,
        filled_qty: 12,
        requested_price: 55,
        taker_final_status: OrderStatus::PartialFilled,
    };
    store.record_match("taker", "t1".to_string(), "SOL", OrderSide::Buy, OrderType::Limit, 15, &result);
    assert_eq!(store.fills.len(), 3);
    assert_eq!(store.fills[0].fill_id, "f1");
    assert_eq!(store.fills[0].buy_order_id, "t1");
    assert_eq!(store.fills[0].sell_order_id, "m1");
    assert_eq!(store.fills[0].buy_user_id, "taker");
    assert_eq!(store.fills[0].sell_user_id, "maker");
    let taker = store.orders.get("t1").unwrap();
    assert_eq!((taker.qty, taker.filled_qty, taker.status, taker.price), (15, 12, OrderStatus::PartialFilled, Some(55)));
    assert_eq!(taker.fills.len(), 3);
    let m1 = store.orders.get("m1").unwrap();
    assert_eq!((m1.side, m1.order_type, m1.qty, m1.filled_qty, m1.status, m1.price), (OrderSide::Sell, OrderType::Limit, 10, 10, OrderStatus::Filled, Some(50)));
    assert_eq!(m1.fills.len(), 2);
    let m2 = store.orders.get("m2").unwrap();
    assert_eq!((m2.filled_qty, m2.status), (2, OrderStatus::Filled));
}

fn record(id: &str, created_at: i64) -> cex_v1::models::store::OrderRecord {
    cex_v1::models::store::OrderRecord {
        order_id: id.to_string(),
        user_id: "someone".to_string(),
        side: OrderSide::Sell,
        order_type: OrderType::Limit,
        symbol: "SOL".to_string(),
        price: Some(50),
        qty: 10,
        filled_qty: 1,
        status: OrderStatus::PartialFilled,
        fills: Vec::new(),
        created_at,
    }
}

fn fill_fields(f: &cex_v1::models::store::Fill) -> (String, String, i64, i64, String, String, String, String, i64) {
    (
        f.fill_id.clone(),
        f.symbol.clone(),
        f.price,
        f.qty,
        f.buy_order_id.clone(),
        f.buy_user_id.clone(),
        f.sell_order_id.clone(),
        f.sell_user_id.clone(),
        f.created_at,
    )
}

#[test]
fn record_match_copies_logged_fills_and_leaves_other_records() {
    let mut store = create_exchange_store();
    store.orders.insert("other".to_string(), record("other", 123));
    store.orders.insert("m1".to_string(), record("m1", 77));
    let result = MatchResult {
        fills: vec![ev("f1", "m1", 4, false), ev("f2", "m2", 2, true), ev("f3", "m1", 5, true)],
        remaining_qty: 0,
        filled_qty: 11,
        requested_price: 55,
        taker_final_status: OrderStatus::Filled,
    };
    store.record_match("taker", "t1".to_string(), "SOL", OrderSide::Buy, OrderType::Limit, 11, &result);
    let log: Vec<_> = store.fills.iter().map(fill_fields).collect();
    let taker: Vec<_> = store.orders.get("t1").unwrap().fills.iter().map(fill_fields).collect();
    assert_eq!(taker, log);
    let m1 = store.orders.get("m1").unwrap();
    assert_eq!(m1.created_at, 77);
    assert_eq!((m1.filled_qty, m1.status), (10, OrderStatus::Filled));
    let m1_fills: Vec<_> = m1.fills.iter().map(fill_fields).collect();
    assert_eq!(m1_fills, vec![log[0].clone(), log[2].clone()]);
    let m2_fills: Vec<_> = store.orders.get("m2").unwrap().fills.iter().map(fill_fields).collect();
    assert_eq!(m2_fills, vec![log[1].clone()]);
    let other = store.orders.get("other").unwrap();
    assert_eq!((other.created_at, other.filled_qty, other.status, other.fills.len()), (123, 1, OrderStatus::PartialFilled, 0));
    assert_eq!(store.orders.len(), 4);
}

fn log_qty(store: &cex_v1::models::store::Store, id: &str) -> i64 {
    store.fills.iter().filter(|f| f.buy_order_id == id || f.sell_order_id == id).map(|f| f.qty).sum()
}

#[test]
fn records_follow_the_fill_log() {
    let mut store = create_exchange_store();
    let first = MatchResult {
        fills: vec![ev("f1", "m1", 4, false)],
        remaining_qty: 0,
        filled_qty: 4,
        requested_price: 55,
        taker_final_status: OrderStatus::Filled,
    };
    store.record_match("taker", "t1".to_string(), "SOL", OrderSide::Buy, OrderType::Limit, 4, &first);
    let second = MatchResult {
        fills: vec![ev("f2", "m1", 6, true), ev("f3", "m2", 2, true)],
        remaining_qty: 1,
        filled_qty: 8,
        requested_price: 55,
        taker_final_status: OrderStatus::PartialFilled,
    };
    store.record_match("taker", "t2".to_string(), "SOL", OrderSide::Buy, OrderType::Limit, 9, &second);
    for id in store.orders.keys() {
        assert_eq!(store.orders.get(&id).unwrap().filled_qty, log_qty(&store, &id));
    }
    for f in &store.fills {
        assert!(store.orders.contains_key(&f.buy_order_id) && store.orders.contains_key(&f.sell_order_id));
    }
    assert_eq!(log_qty(&store, "m1"), 10);
}

#[test]
fn record_match_fits_refuses_an_overflowing_filled_quantity() {
    let mut store = create_exchange_store();
    let mut full = record("m1", 0);
    full.filled_qty = i64::MAX - 1;
    store.orders.insert("m1".to_string(), full);
    let small = MatchResult { fills: vec![ev("f1", "m1", 1, false)], remaining_qty: 0, filled_qty: 1, requested_price: 50, taker_final_status: OrderStatus::Filled };
    let big = MatchResult { fills: vec![ev("f1", "m1", 2, false)], remaining_qty: 0, filled_qty: 2, requested_price: 50, taker_final_status: OrderStatus::Filled };
    assert!(store.record_match_fits(&small));
    assert!(!store.record_match_fits(&big));
    assert!(store.record_match_fits(&MatchResult { fills: vec![ev("f1", "m9", 2, false)], ..big }));
}
