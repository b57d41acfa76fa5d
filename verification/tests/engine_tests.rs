use cex_v1::models::store::{
    create_exchange_store, Balance, OrderSide as BookSide, OrderStatus, OrderType as BookType, INITIAL_ASSET, INITIAL_CASH,
};
use cex_v1::requests::{CreateOrderPayload, InitBalancePayload, OrderSide, OrderType, QueueRequest};
use cex_v1::services::engine::Engine;

fn init(user: &str) -> QueueRequest {
    QueueRequest::InitUserBalance {
        correlation_id: format!("init-{user}"),
        response_queue: "rq".to_string(),
        payload: InitBalancePayload { user_id: user.to_string() },
    }
}

fn order(user: &str, side: OrderSide, symbol: &str, price: Option<i64>, qty: i64, t: OrderType) -> QueueRequest {
    QueueRequest::CreateOrder {
        correlation_id: format!("order-{user}"),
        response_queue: "rq".to_string(),
        payload: CreateOrderPayload { price, qty, side, symbol: symbol.to_string(), order_type: t, user_id: user.to_string() },
    }
}

fn bal(e: &Engine, user: &str, cur: &str) -> Balance {
    *e.store.balances.accounts.get(user).unwrap().get(cur).unwrap()
}

#[test]
fn exchange_store_starts_with_sol_and_btc_books() {
    let store = create_exchange_store();
    assert_eq!(store.orderbooks.len(), 2);
    for s in ["SOL", "BTC"] {
        let b = store.orderbooks.get(s).unwrap();
        assert!(b.bids.is_empty() && b.asks.is_empty());
    }
    assert_eq!(store.balances.accounts.len(), 0);
    assert_eq!(store.orders.len(), 0);
    assert!(store.fills.is_empty());
}

#[test]
fn init_user_balance_funds_once() {
    let mut e = Engine { store: create_exchange_store() };
    let r = e.handle(init("alice")).unwrap();
    assert_eq!(r.correlation_id, "init-alice");
    assert!(r.ok);
    assert_eq!(r.data.order_id, "currentOrderId");
    assert_eq!(r.data.status, OrderStatus::Open);
    assert_eq!(r.data.filled_qty, 0);
    assert_eq!(r.data.average_price, "");
    assert!(r.data.fills.is_empty());
    assert_eq!(bal(&e, "alice", "INR"), Balance { available: INITIAL_CASH, locked: 0 });
    assert_eq!(bal(&e, "alice", "SOL"), Balance { available: INITIAL_ASSET, locked: 0 });
    assert_eq!(bal(&e, "alice", "BTC"), Balance { available: INITIAL_ASSET, locked: 0 });
    assert_eq!(INITIAL_CASH, 100_000_000_000);
    assert_eq!(INITIAL_ASSET, 10_000_000);
    e.handle(order("alice", OrderSide::Buy, "SOL", Some(100), 10, OrderType::Limit)).unwrap();
    let after_order = bal(&e, "alice", "INR");
    e.handle(init("alice")).unwrap();
    assert_eq!(bal(&e, "alice", "INR"), after_order);
}

#[test]
fn create_order_refusals() {
    let mut e = Engine { store: create_exchange_store() };
    let err = e.handle(order("bob", OrderSide::Buy, "ETH", Some(1), 1, OrderType::Limit)).unwrap_err();
    assert_eq!(err.correlation_id, "order-bob");
    assert!(!err.ok);
    assert_eq!(err.data, "Orderbook does not exist for symbol ETH");
    let err = e.handle(order("bob", OrderSide::Buy, "SOL", Some(1), 1, OrderType::Limit)).unwrap_err();
    assert_eq!(err.data, "User bob have no balance on the server");
    e.handle(init("bob")).unwrap();
    let err = e.handle(order("bob", OrderSide::Buy, "SOL", Some(10_000_000), 10_001, OrderType::Limit)).unwrap_err();
    assert_eq!(err.data, "User has insufficient balance");
    assert!(e.store.orderbooks.get("SOL").unwrap().bids.is_empty());
    assert_eq!(e.store.orders.len(), 0);
    assert_eq!(bal(&e, "bob", "INR"), Balance { available: INITIAL_CASH, locked: 0 });
}

#[test]
fn market_orders_and_other_requests_change_nothing() {
    let mut e = Engine { store: create_exchange_store() };
    e.handle(init("carol")).unwrap();
    let r = e.handle(order("carol", OrderSide::Buy, "SOL", Some(5), 5, OrderType::Market)).unwrap();
    assert!(r.ok);
    let r = e.handle(order("carol", OrderSide::Buy, "SOL", None, 5, OrderType::Limit)).unwrap();
    assert!(r.ok);
    let r = e.handle(QueueRequest::GetDepth { correlation_id: "d".to_string(), response_queue: "q".to_string(), payload: "{}".to_string() }).unwrap();
    assert_eq!(r.correlation_id, "d");
    assert_eq!(e.store.orders.len(), 0);
    assert!(e.store.fills.is_empty());
    assert_eq!(bal(&e, "carol", "INR"), Balance { available: INITIAL_CASH, locked: 0 });
}

#[test]
fn resting_buy_locks_cash_and_is_recorded_open() {
    let mut e = Engine { store: create_exchange_store() };
    e.handle(init("alice")).unwrap();
    e.handle(order("alice", OrderSide::Buy, "SOL", Some(900), 300, OrderType::Limit)).unwrap();
    assert_eq!(bal(&e, "alice", "INR"), Balance { available: INITIAL_CASH - 270_000, locked: 270_000 });
    let book = e.store.orderbooks.get("SOL").unwrap();
    let level = book.bids.get(&900).unwrap();
    assert_eq!(level.len(), 1);
    let o = &level[0];
    assert_eq!((o.qty, o.filled_qty, o.price, o.side, o.order_type, o.status), (300, 0, 900, BookSide::Buy, BookType::Limit, OrderStatus::Open));
    assert_eq!(o.user_id, "alice");
    assert_eq!(o.order_id.len(), 36);
    let rec = e.store.orders.get(&o.order_id).unwrap();
    assert_eq!((rec.qty, rec.filled_qty, rec.status, rec.price), (300, 0, OrderStatus::Open, Some(900)));
    assert!(rec.fills.is_empty());
}

#[test]
fn sell_matches_resting_bid_and_settles_both_sides() {
    let mut e = Engine { store: create_exchange_store() };
    e.handle(init("alice")).unwrap();
    e.handle(init("bob")).unwrap();
    e.handle(order("alice", OrderSide::Buy, "SOL", Some(900), 300, OrderType::Limit)).unwrap();
    e.handle(order("bob", OrderSide::Sell, "SOL", Some(800), 100, OrderType::Limit)).unwrap();
    // bob sold 100 units at alice's price 900: cost 90_000
    assert_eq!(bal(&e, "bob", "INR"), Balance { available: INITIAL_CASH + 90_000, locked: 0 });
    assert_eq!(bal(&e, "bob", "SOL"), Balance { available: INITIAL_ASSET - 100, locked: 0 });
    assert_eq!(bal(&e, "alice", "INR"), Balance { available: INITIAL_CASH - 270_000, locked: 180_000 });
    assert_eq!(bal(&e, "alice", "SOL"), Balance { available: INITIAL_ASSET + 100, locked: 0 });
    let level = e.store.orderbooks.get("SOL").unwrap().bids.get(&900).unwrap();
    assert_eq!(level[0].filled_qty, 100);
    assert_eq!(e.store.fills.len(), 1);
    let f = &e.store.fills[0];
    assert_eq!((f.price, f.qty), (900, 100));
    assert_eq!(f.buy_user_id, "alice");
    assert_eq!(f.sell_user_id, "bob");
    assert_eq!(f.buy_order_id, level[0].order_id);
    let maker = e.store.orders.get(&level[0].order_id).unwrap();
    assert_eq!((maker.filled_qty, maker.status), (100, OrderStatus::PartialFilled));
    assert_eq!(maker.fills.len(), 1);
    let taker = e.store.orders.get(&f.sell_order_id).unwrap();
    assert_eq!((taker.filled_qty, taker.status, taker.side), (100, OrderStatus::Filled, BookSide::Sell));
    assert_eq!(taker.fills.len(), 1);
}

#[test]
fn unfilled_sell_rests_among_the_bids() {
    let mut e = Engine { store: create_exchange_store() };
    e.handle(init("dave")).unwrap();
    e.handle(order("dave", OrderSide::Sell, "BTC", Some(500), 20, OrderType::Limit)).unwrap();
    let book = e.store.orderbooks.get("BTC").unwrap();
    assert!(book.asks.is_empty());
    assert_eq!(book.bids.get(&500).unwrap()[0].side, BookSide::Sell);
    assert_eq!(bal(&e, "dave", "INR"), Balance { available: INITIAL_CASH - 10_000, locked: 10_000 });
}

#[test]
fn overflowing_order_is_not_handled() {
    let mut e = Engine { store: create_exchange_store() };
    e.handle(init("erin")).unwrap();
    let big = order("erin", OrderSide::Buy, "SOL", Some(i64::MAX), 2, OrderType::Limit);
    assert!(!e.can_handle(&big));
    assert!(e.handle_checked(big).is_none());
    assert_eq!(bal(&e, "erin", "INR"), Balance { available: INITIAL_CASH, locked: 0 });
    let fine = order("erin", OrderSide::Buy, "SOL", Some(100), 2, OrderType::Limit);
    assert!(e.can_handle(&fine));
    assert!(e.handle_checked(fine).unwrap().is_ok());
    assert_eq!(bal(&e, "erin", "INR"), Balance { available: INITIAL_CASH - 200, locked: 200 });
}

#[test]
fn missing_maker_balance_is_not_handled() {
    let mut e = Engine { store: create_exchange_store() };
    e.handle(init("fay")).unwrap();
    e.handle(init("gus")).unwrap();
    e.handle(order("fay", OrderSide::Buy, "SOL", Some(100), 5, OrderType::Limit)).unwrap();
    // the resting buyer loses the SOL balance that settling the sale would credit
    let mut w = e.store.balances.accounts.take("fay").unwrap();
    w.take("SOL");
    e.store.balances.accounts.insert("fay".to_string(), w);
    let sell = order("gus", OrderSide::Sell, "SOL", Some(100), 5, OrderType::Limit);
    assert!(!e.can_handle(&sell));
    assert!(e.handle_checked(sell).is_none());
}

#[test]
fn handled_store_stays_funded() {
    let mut e = Engine { store: create_exchange_store() };
    for u in ["a", "b", "c"] {
        e.handle(init(u)).unwrap();
    }
    let requests = [
        order("a", OrderSide::Buy, "SOL", Some(100), 50, OrderType::Limit),
        order("b", OrderSide::Sell, "SOL", Some(90), 20, OrderType::Limit),
        order("c", OrderSide::Sell, "SOL", Some(95), 40, OrderType::Limit),
        order("a", OrderSide::Buy, "BTC", Some(7), 3, OrderType::Limit),
        order("b", OrderSide::Sell, "BTC", Some(1), 3, OrderType::Limit),
    ];
    for r in requests {
        assert!(e.can_handle(&r));
        e.handle(r).unwrap();
    }
    for u in ["a", "b", "c"] {
        let w = e.store.balances.accounts.get(u).unwrap();
        for cur in ["INR", "SOL", "BTC"] {
            assert!(w.contains_key(cur));
        }
    }
    for m in ["SOL", "BTC"] {
        let book = e.store.orderbooks.get(m).unwrap();
        for q in book.bids.values().chain(book.asks.values()) {
            for o in q {
                assert!(e.store.balances.accounts.contains_key(&o.user_id));
                assert!(0 <= o.filled_qty && o.filled_qty < o.qty);
            }
        }
    }
    // every fill is recorded in the log and in both orders' records
    assert!(!e.store.fills.is_empty());
    for f in &e.store.fills {
        assert!(e.store.orders.get(&f.buy_order_id).unwrap().fills.iter().any(|x| x.fill_id == f.fill_id));
        assert!(e.store.orders.get(&f.sell_order_id).unwrap().fills.iter().any(|x| x.fill_id == f.fill_id));
    }
}

fn total(e: &Engine, currency: &str) -> i64 {
    let accounts = &e.store.balances.accounts;
    accounts.keys().iter().map(|u| accounts.get(u).unwrap().get(currency).map_or(0, |b| b.available + b.locked)).sum()
}

#[test]
fn handling_orders_keeps_each_currency_total() {
    let mut e = Engine { store: create_exchange_store() };
    for u in ["a", "b", "c"] {
        e.handle(init(u)).unwrap();
    }
    let before: Vec<i64> = ["INR", "SOL", "BTC"].iter().map(|c| total(&e, c)).collect();
    let requests = [
        order("a", OrderSide::Buy, "SOL", Some(100), 50, OrderType::Limit),
        order("b", OrderSide::Sell, "SOL", Some(90), 20, OrderType::Limit),
        order("c", OrderSide::Sell, "SOL", Some(95), 40, OrderType::Limit),
        order("b", OrderSide::Buy, "BTC", Some(7), 3, OrderType::Limit),
        order("x", OrderSide::Buy, "BTC", Some(7), 3, OrderType::Limit),
    ];
    for r in requests {
        let _ = e.handle(r);
        let now: Vec<i64> = ["INR", "SOL", "BTC"].iter().map(|c| total(&e, c)).collect();
        assert_eq!(now, before);
    }
}

#[test]
fn taker_pays_its_trades_and_locks_the_rest() {
    let mut e = Engine { store: create_exchange_store() };
    e.handle(init("maker")).unwrap();
    e.handle(init("taker")).unwrap();
    e.handle(order("maker", OrderSide::Buy, "SOL", Some(120), 10, OrderType::Limit)).unwrap();
    e.handle(order("maker", OrderSide::Buy, "SOL", Some(110), 5, OrderType::Limit)).unwrap();
    let inr = bal(&e, "taker", "INR");
    let sol = bal(&e, "taker", "SOL");
    // sells 20 at 100 or better: 10 at 120, 5 at 110, and 5 left at 100
    e.handle(order("taker", OrderSide::Sell, "SOL", Some(100), 20, OrderType::Limit)).unwrap();
    let cost = 10 * 120 + 5 * 110;
    let locked = 100 * 5;
    assert_eq!(bal(&e, "taker", "INR"), Balance { available: inr.available + cost - locked, locked: inr.locked + locked });
    assert_eq!(bal(&e, "taker", "SOL"), Balance { available: sol.available - 15, locked: sol.locked });
}

#[test]
fn books_stay_tidy() {
    let mut e = Engine { store: create_exchange_store() };
    for u in ["a", "b"] {
        e.handle(init(u)).unwrap();
    }
    for r in [
        order("a", OrderSide::Buy, "SOL", Some(100), 5, OrderType::Limit),
        order("a", OrderSide::Buy, "SOL", Some(101), 5, OrderType::Limit),
        order("b", OrderSide::Sell, "SOL", Some(100), 7, OrderType::Limit),
        order("b", OrderSide::Sell, "SOL", Some(99), 6, OrderType::Limit),
    ] {
        e.handle(r).unwrap();
        for m in ["SOL", "BTC"] {
            let book = e.store.orderbooks.get(m).unwrap();
            for (price, level) in book.bids.iter().chain(book.asks.iter()) {
                assert!(!level.is_empty());
                assert!(level.iter().all(|o| o.price == *price));
            }
        }
    }
    assert!(e.store.orderbooks.get("SOL").unwrap().bids.get(&101).is_none());
}

#[test]
fn records_filled_quantity_is_what_their_fills_add_up_to() {
    let mut e = Engine { store: create_exchange_store() };
    for u in ["a", "b", "c"] {
        e.handle(init(u)).unwrap();
    }
    for r in [
        order("a", OrderSide::Buy, "SOL", Some(100), 50, OrderType::Limit),
        order("b", OrderSide::Sell, "SOL", Some(90), 20, OrderType::Limit),
        order("c", OrderSide::Sell, "SOL", Some(95), 40, OrderType::Limit),
        order("a", OrderSide::Buy, "SOL", Some(99), 10, OrderType::Limit),
    ] {
        e.handle(r).unwrap();
        for id in e.store.orders.keys() {
            let rec = e.store.orders.get(&id).unwrap();
            assert_eq!(rec.filled_qty, rec.fills.iter().map(|f| f.qty).sum::<i64>());
        }
    }
    assert!(e.store.orders.len() >= 4);
}
