//! The exchange's data types and the whole in-memory store.
//!
//! Amounts are integers: a price is a count of the primary currency's
//! smallest price unit, a quantity a count of the traded asset's smallest
//! unit, and a balance a count of the same units as the quantities of its
//! currency (so the primary currency's balances move by `price * qty`).
use std::collections::BTreeMap;
use std::collections::VecDeque;

use vstd::prelude::*;

use crate::models::book::levels;
use crate::table::Table;

verus! {

pub type UserId = String;

pub type MarketId = String;

pub type OrderId = String;

pub type Currency = String;

/// The currency in which every market is priced.
pub const PRIMARY_CURRENCY: &'static str = "INR";

/// Price units per whole unit of the primary currency.
pub const PRICE_SCALE: i64 = 10000;

/// Quantity units per whole unit of a traded asset.
pub const QTY_SCALE: i64 = 10000;

/// What a new user is given of the primary currency: 1000 whole units, in
/// the units of `price * qty`.
pub const INITIAL_CASH: i64 = 1000 * PRICE_SCALE * QTY_SCALE;

/// What a new user is given of each traded asset: 1000 whole units.
pub const INITIAL_ASSET: i64 = 1000 * QTY_SCALE;

/// The characters of `PRIMARY_CURRENCY`.
pub open spec fn primary() -> Seq<char> {
    seq!['I', 'N', 'R']
}

pub open spec fn sol() -> Seq<char> {
    seq!['S', 'O', 'L']
}

pub open spec fn btc() -> Seq<char> {
    seq!['B', 'T', 'C']
}

/// Errors of the store's operations.
#[derive(Debug, Clone, Copy, PartialEq, Eq, Structural)]
pub enum Error {
    UserNotFound,
    BalanceNotFound,
    InsufficientBalance,
    OrderNotFound,
}

/// What a user holds of one currency: free to use, or locked by resting orders.
#[derive(Debug, Clone, Copy, PartialEq, Eq, Structural)]
pub struct Balance {
    pub available: i64,
    pub locked: i64,
}

/// Every user's balances, by user id and then by currency.
#[derive(Debug)]
pub struct Balances {
    pub accounts: Table<Table<Balance>>,
}

/// A trade between a buy order and a sell order.
#[derive(Debug)]
pub struct Fill {
    pub fill_id: String,
    pub symbol: String,
    pub price: i64,
    pub qty: i64,
    pub buy_order_id: String,
    pub buy_user_id: String,
    pub sell_order_id: String,
    pub sell_user_id: String,
    pub created_at: i64,
}

impl Clone for Fill {
    fn clone(&self) -> (r: Self)
        ensures
            r == *self,
    {
        Fill {
            fill_id: self.fill_id.clone(),
            symbol: self.symbol.clone(),
            price: self.price,
            qty: self.qty,
            buy_order_id: self.buy_order_id.clone(),
            buy_user_id: self.buy_user_id.clone(),
            sell_order_id: self.sell_order_id.clone(),
            sell_user_id: self.sell_user_id.clone(),
            created_at: self.created_at,
        }
    }
}

#[derive(Debug, Clone, Copy, PartialEq, Eq, Structural)]
pub enum OrderSide {
    Buy,
    Sell,
}

#[derive(Debug, Clone, Copy, PartialEq, Eq, Structural)]
pub enum OrderType {
    Market,
    Limit,
}

#[derive(Debug, Clone, Copy, PartialEq, Eq, Structural)]
pub enum OrderStatus {
    Filled,
    Open,
    PartialFilled,
    Cancelled,
}

/// An order waiting in a book.
#[derive(Debug, Clone)]
pub struct RestingOrder {
    pub order_id: String,
    pub user_id: String,
    pub side: OrderSide,
    pub order_type: OrderType,
    pub symbol: String,
    pub price: i64,
    pub qty: i64,
    pub filled_qty: i64,
    pub status: OrderStatus,
    pub created_at: i64,
}

/// What the store remembers of an order.
#[derive(Debug)]
pub struct OrderRecord {
    pub order_id: String,
    pub user_id: String,
    pub side: OrderSide,
    pub order_type: OrderType,
    pub symbol: String,
    pub price: Option<i64>,
    pub qty: i64,
    pub filled_qty: i64,
    pub status: OrderStatus,
    pub fills: Vec<Fill>,
    pub created_at: i64,
}

/// One market's resting orders: price levels, each a queue in time order.
#[derive(Debug)]
pub struct OrderBook {
    pub bids: BTreeMap<i64, VecDeque<RestingOrder>>,
    pub asks: BTreeMap<i64, VecDeque<RestingOrder>>,
}

/// What matching an incoming order against a book produced.
pub struct MatchResult {
    pub fills: Vec<FillEvent>,
    pub remaining_qty: i64,
    pub filled_qty: i64,
    pub requested_price: i64,
    pub taker_final_status: OrderStatus,
}

/// One trade of an incoming (taker) order against a resting (maker) order.
pub struct FillEvent {
    pub fill_id: String,
    pub price: i64,
    pub qty: i64,
    pub maker_user_id: String,
    pub maker_order_id: String,
    pub taker_user_id: String,
    pub taker_side: OrderSide,
    pub is_maker_fully_filled: bool,
    pub maker_total_qty: i64,
}

/// The exchange's whole state.
#[derive(Debug)]
pub struct Store {
    pub balances: Balances,
    pub orderbooks: Table<OrderBook>,
    pub orders: Table<OrderRecord>,
    pub fills: Vec<Fill>,
}

impl Store {
    /// Every table is well formed and every book holds valid orders only.
    pub open spec fn wf(&self) -> bool {
        &&& self.balances.wf()
        &&& self.orderbooks.wf()
        &&& self.orders.wf()
        &&& forall|s: Seq<char>| #[trigger] self.orderbooks@.contains_key(s) ==> self.orderbooks@[s].wf()
    }
}

/// A store with empty `SOL` and `BTC` books and nothing else.
pub fn create_exchange_store() -> (store: Store)
    ensures
        store.wf(),
        store.balances@ == Map::<Seq<char>, Map<Seq<char>, Balance>>::empty(),
        store.orderbooks@.dom() == set![sol(), btc()],
        levels(store.orderbooks@[sol()].bids) == Map::<i64, Seq<RestingOrder>>::empty(),
        levels(store.orderbooks@[sol()].asks) == Map::<i64, Seq<RestingOrder>>::empty(),
        levels(store.orderbooks@[btc()].bids) == Map::<i64, Seq<RestingOrder>>::empty(),
        levels(store.orderbooks@[btc()].asks) == Map::<i64, Seq<RestingOrder>>::empty(),
        store.orders@ == Map::<Seq<char>, OrderRecord>::empty(),
        store.fills@ == Seq::<Fill>::empty(),
{
    let sol_orderbook = OrderBook { bids: BTreeMap::new(), asks: BTreeMap::new() };
    let btc_orderbook = OrderBook { bids: BTreeMap::new(), asks: BTreeMap::new() };
    let mut orderbooks = Table::new();
    orderbooks.insert("SOL".to_owned(), sol_orderbook);
    orderbooks.insert("BTC".to_owned(), btc_orderbook);
    let store = Store {
        balances: Balances { accounts: Table::new() },
        orderbooks,
        orders: Table::new(),
        fills: Vec::new(),
    };
    proof {
        reveal_strlit("SOL");
        reveal_strlit("BTC");
        assert("SOL"@ == sol());
        assert("BTC"@ == btc());
        assert(sol() != btc()) by {
            assert(sol()[0] != btc()[0]);
        }
        assert(store.orderbooks@[sol()] == sol_orderbook);
        assert(store.orderbooks@[btc()] == btc_orderbook);
        assert(store.balances@ =~= Map::<Seq<char>, Map<Seq<char>, Balance>>::empty());
        assert(store.orderbooks@.dom() =~= set![sol(), btc()]);
        assert(sol() != btc());
        assert(levels(store.orderbooks@[sol()].bids) =~= Map::<i64, Seq<RestingOrder>>::empty());
        assert(levels(store.orderbooks@[sol()].asks) =~= Map::<i64, Seq<RestingOrder>>::empty());
        assert(levels(store.orderbooks@[btc()].bids) =~= Map::<i64, Seq<RestingOrder>>::empty());
        assert(levels(store.orderbooks@[btc()].asks) =~= Map::<i64, Seq<RestingOrder>>::empty());
    }
    store
}

} // verus!
