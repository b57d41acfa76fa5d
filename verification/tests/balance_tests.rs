use cex_v1::models::store::{Balance, Balances, Error, FillEvent, OrderSide};
use cex_v1::models::balances::Outcome;
use cex_v1::table::Table;

fn wallet(entries: &[(&str, i64, i64)]) -> Table<Balance> {
    let mut w = Table::new();
    for (c, a, l) in entries {
        w.insert(c.to_string(), Balance { available: *a, locked: *l });
    }
    w
}

fn fill(taker: &str, maker: &str, side: OrderSide, price: i64, qty: i64) -> FillEvent {
    FillEvent {
        fill_id: "f".to_string(),
        price,
        qty,
        maker_user_id: maker.to_string(),
        maker_order_id: "m-order".to_string(),
        taker_user_id: taker.to_string(),
        taker_side: side,
        is_maker_fully_filled: false,
        maker_total_qty: qty,
    }
}

fn bal(b: &Balances, user: &str, cur: &str) -> Balance {
    *b.accounts.get(user).unwrap().get(cur).unwrap()
}

fn two_users() -> Balances {
    let mut accounts = Table::new();
    accounts.insert("t".to_string(), wallet(&[("INR", 1000, 0), ("SOL", 10, 0)]));
    accounts.insert("m".to_string(), wallet(&[("INR", 500, 200), ("SOL", 7, 5)]));
    Balances { accounts }
}

#[test]
fn buying_taker_pays_and_selling_maker_delivers_from_locked() {
    let mut b = two_users();
    let r = b.apply_fills(&[fill("t", "m", OrderSide::Buy, 20, 3)], "SOL");
    assert_eq!(r.unwrap(), ());
    assert_eq!(bal(&b, "t", "INR"), Balance { available: 940, locked: 0 });
    assert_eq!(bal(&b, "t", "SOL"), Balance { available: 13, locked: 0 });
    assert_eq!(bal(&b, "m", "INR"), Balance { available: 560, locked: 200 });
    assert_eq!(bal(&b, "m", "SOL"), Balance { available: 7, locked: 2 });
}

#[test]
fn selling_taker_is_paid_from_buying_makers_locked_cash() {
    let mut b = two_users();
    b.apply_fills(&[fill("t", "m", OrderSide::Sell, 20, 3), fill("t", "m", OrderSide::Sell, 10, 1)], "SOL").unwrap();
    assert_eq!(bal(&b, "t", "INR"), Balance { available: 1070, locked: 0 });
    assert_eq!(bal(&b, "t", "SOL"), Balance { available: 6, locked: 0 });
    assert_eq!(bal(&b, "m", "INR"), Balance { available: 500, locked: 130 });
    assert_eq!(bal(&b, "m", "SOL"), Balance { available: 11, locked: 5 });
}

#[test]
fn unknown_users_get_fresh_zero_balances() {
    let mut b = Balances { accounts: Table::new() };
    b.apply_fills(&[fill("x", "y", OrderSide::Buy, 5, 2)], "BTC").unwrap();
    assert_eq!(bal(&b, "x", "INR"), Balance { available: -10, locked: 0 });
    assert_eq!(bal(&b, "x", "BTC"), Balance { available: 2, locked: 0 });
    assert_eq!(bal(&b, "y", "INR"), Balance { available: 10, locked: 0 });
    assert_eq!(bal(&b, "y", "BTC"), Balance { available: 0, locked: -2 });
    assert_eq!(b.accounts.len(), 2);
}

#[test]
fn missing_currency_stops_with_balance_not_found_keeping_earlier_changes() {
    let mut b = two_users();
    let r = b.apply_fills(&[fill("t", "m", OrderSide::Buy, 1, 1), fill("t", "m", OrderSide::Buy, 2, 2)], "BTC");
    assert!(matches!(r, Err(Error::BalanceNotFound)));
    // the taker's cash moved for the first fill before its BTC balance was found missing
    assert_eq!(bal(&b, "t", "INR"), Balance { available: 999, locked: 0 });
    assert_eq!(bal(&b, "m", "INR"), Balance { available: 500, locked: 200 });
}

#[test]
fn trades_conserve_each_currency() {
    let mut b = two_users();
    let fills = [fill("t", "m", OrderSide::Buy, 7, 3), fill("m", "t", OrderSide::Sell, 9, 2), fill("t", "t", OrderSide::Buy, 4, 4)];
    let total = |b: &Balances, c: &str| -> i64 {
        ["t", "m"].iter().map(|u| { let x = bal(b, u, c); x.available + x.locked }).sum()
    };
    let before = (total(&b, "INR"), total(&b, "SOL"));
    b.apply_fills(&fills, "SOL").unwrap();
    assert_eq!((total(&b, "INR"), total(&b, "SOL")), before);
}

fn totals(b: &Balances, currency: &str) -> i64 {
    b.accounts.keys().iter().map(|u| b.accounts.get(u).unwrap().get(currency).map_or(0, |x| x.available + x.locked)).sum()
}

#[test]
fn fills_keep_each_currency_total() {
    let mut b = two_users();
    let before: Vec<i64> = ["INR", "SOL"].iter().map(|c| totals(&b, c)).collect();
    b.apply_fills(
        &[fill("t", "m", OrderSide::Buy, 20, 3), fill("t", "m", OrderSide::Sell, 10, 1), fill("n", "m", OrderSide::Buy, 0, 0)],
        "SOL",
    )
    .unwrap();
    let after: Vec<i64> = ["INR", "SOL"].iter().map(|c| totals(&b, c)).collect();
    assert_eq!(before, after);
    assert_eq!(bal(&b, "n", "INR"), Balance { available: 0, locked: 0 });
}

#[test]
fn applying_fills_in_two_parts_is_applying_them_joined() {
    let fills = [fill("t", "m", OrderSide::Buy, 20, 3), fill("t", "m", OrderSide::Sell, 10, 1), fill("t", "m", OrderSide::Buy, 5, 2)];
    let mut joined = two_users();
    joined.apply_fills(&fills, "SOL").unwrap();
    let mut parts = two_users();
    parts.apply_fills(&fills[..1], "SOL").unwrap();
    parts.apply_fills(&fills[1..], "SOL").unwrap();
    for u in ["t", "m"] {
        for c in ["INR", "SOL"] {
            assert_eq!(bal(&joined, u, c), bal(&parts, u, c));
        }
    }
}

#[test]
fn fills_fit_tells_an_overflow_apart() {
    let b = two_users();
    assert!(b.fills_fit(&[fill("t", "m", OrderSide::Buy, 20, 3)], "SOL"));
    assert!(!b.fills_fit(&[fill("t", "m", OrderSide::Buy, i64::MAX, 2)], "SOL"));
    // a missing balance is no overflow
    assert!(b.fills_fit(&[fill("t", "m", OrderSide::Buy, 1, 1)], "BTC"));
}

#[test]
fn checked_fills_in_two_parts_are_the_fills_joined() {
    let fills = [fill("t", "m", OrderSide::Buy, 20, 3), fill("t", "m", OrderSide::Sell, 10, 1)];
    let mut joined = two_users();
    assert_eq!(joined.apply_fills_checked(&fills, "SOL"), Outcome::Done);
    let mut parts = two_users();
    assert_eq!(parts.apply_fills_checked(&fills[..1], "SOL"), Outcome::Done);
    assert_eq!(parts.apply_fills_checked(&fills[1..], "SOL"), Outcome::Done);
    for u in ["t", "m"] {
        for c in ["INR", "SOL"] {
            assert_eq!(bal(&joined, u, c), bal(&parts, u, c));
        }
    }
    let mut empty = two_users();
    assert_eq!(empty.apply_fills_checked(&[], "SOL"), Outcome::Done);
    assert_eq!(bal(&empty, "t", "INR"), bal(&two_users(), "t", "INR"));
}
