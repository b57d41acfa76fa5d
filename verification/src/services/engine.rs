//! The exchange engine: what each request does to the store and what is
//! answered.
use std::collections::VecDeque;

use vstd::prelude::*;

use crate::models::balances::{apply_steps, fits, has_wallet, holding, law_steps_keep_totals, law_steps_taker_change, law_trades_find_balances, lemma_apply_events, lemma_held_same, same_shape, total_cost, total_held, Accounts, Applied, Outcome};
use crate::models::book::{law_status_follows_filled, event_of, lemma_total_concat, events_of, law_match_keeps_tidy, law_match_keeps_users, tidy, total_qty, lemma_levels_finite_of, users_within, lemma_match_side_total, levels, match_side, status_for, valid_levels, valid_order, FillStep};
use crate::models::records::{law_fill_records_event, trades_with, views_qty, event_qty_total, lemma_fills_of_qty, lemma_record_makers_consistent, records_consistent, event_qtys, filled_qtys, fill_qtys_fit, fills_of, fills_view, record_makers, records_view, OrderRecordView};
use crate::models::store::{
    btc, primary, sol, Balance, Fill, FillEvent, OrderRecord, OrderSide, OrderStatus, OrderType,
    RestingOrder, Store, INITIAL_ASSET, INITIAL_CASH, PRICE_SCALE, PRIMARY_CURRENCY, QTY_SCALE,
};
use crate::requests::{book_side, CreateOrderPayload, QueueRequest, QueueResponse};
use crate::stamps::{new_id, now_millis};
use crate::table::Table;

verus! {

/// The data of a successful response.
#[derive(Debug)]
pub struct OrderAck {
    pub order_id: String,
    pub status: OrderStatus,
    pub filled_qty: i64,
    pub average_price: String,
    pub fills: Vec<Fill>,
}

/// The engine and the store it works on.
#[derive(Debug)]
pub struct Engine {
    pub store: Store,
}

/// What a user is given when its balance is initialised.
pub open spec fn starting_wallet() -> Map<Seq<char>, Balance> {
    Map::empty().insert(primary(), Balance { available: INITIAL_CASH, locked: 0 }).insert(
        sol(),
        Balance { available: INITIAL_ASSET, locked: 0 },
    ).insert(btc(), Balance { available: INITIAL_ASSET, locked: 0 })
}

/// Moves `amount` of `user`'s primary balance from available to locked.
pub open spec fn lock(a: Accounts, user: Seq<char>, amount: int) -> Accounts {
    let b = a[user][primary()];
    a.insert(
        user,
        a[user].insert(
            primary(),
            Balance { available: (b.available - amount) as i64, locked: (b.locked + amount) as i64 },
        ),
    )
}

/// Appends `o` to the level at `price`, opening the level if needed.
pub open spec fn rest_order(l: Map<i64, Seq<RestingOrder>>, price: i64, o: RestingOrder) -> Map<i64, Seq<RestingOrder>> {
    l.insert(price, if l.contains_key(price) { l[price].push(o) } else { seq![o] })
}

/// `o` is the resting remainder of the incoming order.
pub open spec fn is_remainder(o: RestingOrder, order_id: Seq<char>, user: Seq<char>, side: OrderSide, symbol: Seq<char>, price: i64, qty: i64, filled: int) -> bool {
    &&& o.order_id@ == order_id
    &&& o.user_id@ == user
    &&& o.side == side
    &&& o.order_type == OrderType::Limit
    &&& o.symbol@ == symbol
    &&& o.price == price
    &&& o.qty == qty
    &&& o.filled_qty == filled
    &&& o.status == status_for(qty as int, filled)
}

/// The record of the incoming order after matching.
pub open spec fn taker_record(order_id: Seq<char>, user: Seq<char>, side: OrderSide, symbol: Seq<char>, price: i64, qty: i64, filled: int, evs: Seq<FillEvent>) -> OrderRecordView {
    OrderRecordView {
        order_id,
        user_id: user,
        side,
        order_type: OrderType::Limit,
        symbol,
        price: Some(price),
        qty,
        filled_qty: filled as i64,
        status: status_for(qty as int, filled),
        fills: fills_of(evs, order_id, symbol),
    }
}

/// The trades, the opposite side afterwards and what is left when the
/// incoming order meets book `symbol` of `s`.
pub open spec fn matched(s: Store, side: OrderSide, symbol: Seq<char>, price: i64, qty: i64) -> (Seq<FillStep>, Map<i64, Seq<RestingOrder>>, int) {
    match_side(s.orderbooks@[symbol].opposite(side), side, price, qty as int)
}

/// `new` is `old` after a limit order of `user` (`side`, `symbol`, `price`,
/// `qty`) with id `order_id` was matched and settled; the fills are recorded
/// by `evs` and the remainder, if any, rests as `o`. Whatever the side, the
/// remainder rests among the bids and locks `price * remaining` of the
/// user's primary currency.
pub open spec fn placed(old: Store, new: Store, user: Seq<char>, side: OrderSide, symbol: Seq<char>, price: i64, qty: i64, order_id: Seq<char>, evs: Seq<FillEvent>, o: RestingOrder) -> bool {
    let book0 = old.orderbooks@[symbol];
    let book1 = new.orderbooks@[symbol];
    let ms = matched(old, side, symbol, price, qty);
    let rem = ms.2;
    let filled = qty - rem;
    &&& events_of(evs, ms.0, user, side)
    &&& new.orderbooks@.dom() == old.orderbooks@.dom()
    &&& forall|k: Seq<char>| k != symbol && #[trigger] old.orderbooks@.contains_key(k) ==> new.orderbooks@[k] == old.orderbooks@[k]
    &&& match side {
        OrderSide::Buy => {
            &&& levels(book1.asks) == ms.1
            &&& levels(book1.bids) == if rem > 0 { rest_order(levels(book0.bids), price, o) } else { levels(book0.bids) }
        },
        OrderSide::Sell => {
            &&& levels(book1.bids) == if rem > 0 { rest_order(ms.1, price, o) } else { ms.1 }
            &&& levels(book1.asks) == levels(book0.asks)
        },
    }
    &&& rem > 0 ==> is_remainder(o, order_id, user, side, symbol, price, qty, filled)
    &&& apply_steps(old.balances@, ms.0, user, side, symbol) matches Applied::Done(a1) && new.balances@ == if rem > 0 {
        lock(a1, user, price * rem)
    } else {
        a1
    }
    &&& records_view(new.orders) == record_makers(records_view(old.orders), evs, order_id, symbol).insert(
        order_id,
        taker_record(order_id, user, side, symbol, price, qty, filled, evs),
    )
    &&& fills_view(new.fills@) == fills_view(old.fills@) + fills_of(evs, order_id, symbol)
    &&& new.fills@.len() == old.fills@.len() + evs.len()
    &&& new.fills@.subrange(0, old.fills@.len() as int) == old.fills@
    &&& new.orders@[order_id].fills@ == new.fills@.subrange(old.fills@.len() as int, new.fills@.len() as int)
    &&& forall|k: Seq<char>|
        #![trigger new.orders@[k]]
        old.orders@.contains_key(k) && k != order_id && !trades_with(evs, k) ==> new.orders@[k] == old.orders@[k]
}

/// The (resting order id, quantity) of each trade.
pub open spec fn step_qtys(steps: Seq<FillStep>) -> Seq<(Seq<char>, int)> {
    steps.map_values(|st: FillStep| (st.maker.order_id@, st.qty as int))
}

/// No amount leaves the `i64` range and every fill finds its balances when
/// the limit order is placed (once it has passed the checks).
pub open spec fn place_fits(s: Store, user: Seq<char>, side: OrderSide, symbol: Seq<char>, price: i64, qty: i64) -> bool {
    let ms = matched(s, side, symbol, price, qty);
    let rem = ms.2;
    &&& apply_steps(s.balances@, ms.0, user, side, symbol) matches Applied::Done(a1) && (rem > 0 ==> {
        let b = a1[user][primary()];
        &&& a1.contains_key(user)
        &&& a1[user].contains_key(primary())
        &&& fits(price * rem)
        &&& fits(b.available - price * rem)
        &&& fits(b.locked + price * rem)
    })
    &&& fill_qtys_fit(filled_qtys(records_view(s.orders)), step_qtys(ms.0))
}

/// The available balance that a limit order is checked against, and the
/// factor that brings it to the units of `price * qty`: the primary
/// currency for a buy, the market's asset for a sell.
pub open spec fn checked_balance(s: Store, user: Seq<char>, side: OrderSide, symbol: Seq<char>) -> int {
    let cur = match side {
        OrderSide::Buy => primary(),
        OrderSide::Sell => symbol,
    };
    let scale: int = match side {
        OrderSide::Buy => 1,
        OrderSide::Sell => PRICE_SCALE as int,
    };
    if s.balances@.contains_key(user) && s.balances@[user].contains_key(cur) {
        s.balances@[user][cur].available * scale
    } else {
        0
    }
}

/// The limit order passes the balance check.
pub open spec fn can_afford(s: Store, p: CreateOrderPayload, price: i64) -> bool {
    checked_balance(s, p.user_id@, book_side(p.side), p.symbol@) >= price * p.qty
}

/// The request can be handled without an amount leaving the `i64` range or
/// a fill missing its balances.
pub open spec fn handle_fits(s: Store, request: QueueRequest) -> bool {
    match request {
        QueueRequest::CreateOrder { payload: p, .. } => {
            s.orderbooks@.contains_key(p.symbol@) && s.balances@.contains_key(p.user_id@) && p.order_type
                == crate::requests::OrderType::Limit && p.price is Some ==> {
                let price = p.price->0;
                &&& fits(price * p.qty)
                &&& can_afford(s, p, price) ==> place_fits(s, p.user_id@, book_side(p.side), p.symbol@, price, p.qty)
            }
        },
        _ => true,
    }
}

/// `r` is the success response to a request with id `correlation_id`.
pub open spec fn acknowledged(r: Result<QueueResponse<OrderAck>, QueueResponse<String>>, correlation_id: Seq<char>) -> bool {
    r matches Ok(resp) && {
        &&& resp.correlation_id@ == correlation_id
        &&& resp.ok
        &&& resp.data.order_id@ == "currentOrderId"@
        &&& resp.data.status == OrderStatus::Open
        &&& resp.data.filled_qty == 0
        &&& resp.data.average_price@ == ""@
        &&& resp.data.fills@.len() == 0
    }
}

/// `r` is the failure response with `message` to a request with id
/// `correlation_id`.
pub open spec fn refused(r: Result<QueueResponse<OrderAck>, QueueResponse<String>>, correlation_id: Seq<char>, message: Seq<char>) -> bool {
    r matches Err(resp) && resp.correlation_id@ == correlation_id && !resp.ok && resp.data@ == message
}

/// The two stores hold the same balances, books, order records and fills.
pub open spec fn same_store(a: Store, b: Store) -> bool {
    &&& a.balances@ == b.balances@
    &&& a.orderbooks@ == b.orderbooks@
    &&& a.orders@ == b.orders@
    &&& a.fills@ == b.fills@
}

/// What handling `request` did to the store (`old` became `new`) and
/// answered (`r`).
pub open spec fn handled(old: Store, new: Store, request: QueueRequest, r: Result<QueueResponse<OrderAck>, QueueResponse<String>>) -> bool {
    match request {
        QueueRequest::InitUserBalance { correlation_id, payload, .. } => {
            &&& acknowledged(r, correlation_id@)
            &&& new.balances@ == if old.balances@.contains_key(payload.user_id@) {
                old.balances@
            } else {
                old.balances@.insert(payload.user_id@, starting_wallet())
            }
            &&& new.orderbooks@ == old.orderbooks@
            &&& new.orders@ == old.orders@
            &&& new.fills@ == old.fills@
        },
        QueueRequest::CreateOrder { correlation_id, payload: p, .. } => {
            let c = correlation_id@;
            if !old.orderbooks@.contains_key(p.symbol@) {
                refused(r, c, "Orderbook does not exist for symbol "@ + p.symbol@) && same_store(old, new)
            } else if !old.balances@.contains_key(p.user_id@) {
                refused(r, c, "User "@ + p.user_id@ + " have no balance on the server"@) && same_store(old, new)
            } else if p.order_type == crate::requests::OrderType::Limit && p.price is Some {
                let price = p.price->0;
                if !can_afford(old, p, price) {
                    refused(r, c, "User has insufficient balance"@) && same_store(old, new)
                } else {
                    &&& acknowledged(r, c)
                    &&& exists|order_id: Seq<char>, evs: Seq<FillEvent>, o: RestingOrder|
                        order_id.len() == 36 && #[trigger] placed(
                            old,
                            new,
                            p.user_id@,
                            book_side(p.side),
                            p.symbol@,
                            price,
                            p.qty,
                            order_id,
                            evs,
                            o,
                        )
                }
            } else {
                acknowledged(r, c) && same_store(old, new)
            }
        },
        _ => acknowledged(r, request.spec_correlation_id()) && same_store(old, new),
    }
}

/// Every user has balances in the primary currency and in every market's
/// asset, every market is `SOL` or `BTC` (the assets a new user is given),
/// and every resting order belongs to a user.
pub open spec fn funded(s: Store) -> bool {
    let users = s.balances@.dom();
    &&& forall|u: Seq<char>| #[trigger] s.balances@.contains_key(u) ==> s.balances@[u].contains_key(primary())
    &&& forall|u: Seq<char>, m: Seq<char>|
        #![trigger s.balances@.contains_key(u), s.orderbooks@.contains_key(m)]
        s.balances@.contains_key(u) && s.orderbooks@.contains_key(m) ==> s.balances@[u].contains_key(m)
    &&& forall|m: Seq<char>| #[trigger] s.orderbooks@.contains_key(m) ==> m == sol() || m == btc()
    &&& forall|m: Seq<char>| #[trigger] s.orderbooks@.contains_key(m) ==> users_within(levels(s.orderbooks@[m].bids), users)
        && users_within(levels(s.orderbooks@[m].asks), users)
}

/// Law: a new exchange store (no users; empty `SOL` and `BTC` books) is
/// funded.
pub proof fn law_new_store_funded(s: Store)
    requires
        s.balances@ == Map::<Seq<char>, Map<Seq<char>, Balance>>::empty(),
        s.orderbooks@.dom() == set![sol(), btc()],
        levels(s.orderbooks@[sol()].bids) == Map::<i64, Seq<RestingOrder>>::empty(),
        levels(s.orderbooks@[sol()].asks) == Map::<i64, Seq<RestingOrder>>::empty(),
        levels(s.orderbooks@[btc()].bids) == Map::<i64, Seq<RestingOrder>>::empty(),
        levels(s.orderbooks@[btc()].asks) == Map::<i64, Seq<RestingOrder>>::empty(),
    ensures
        funded(s),
{
    assert forall|m: Seq<char>| #[trigger] s.orderbooks@.contains_key(m) implies m == sol() || m == btc() by {
        assert(s.orderbooks@.dom().contains(m));
    }
}

/// Law: in a funded store, placing a limit order of a user into an
/// existing market finds every balance that its trades need.
pub proof fn law_funded_trades_find_balances(s: Store, user: Seq<char>, side: OrderSide, symbol: Seq<char>, price: i64, qty: i64)
    requires
        s.wf(),
        funded(s),
        s.balances@.contains_key(user),
        s.orderbooks@.contains_key(symbol),
    ensures
        !(apply_steps(s.balances@, matched(s, side, symbol, price, qty).0, user, side, symbol) is Missing),
{
    let a = s.balances@;
    let book = s.orderbooks@[symbol];
    lemma_levels_finite_of(book, side);
    law_match_keeps_users(book.opposite(side), side, price, qty as int, a.dom());
    let steps = matched(s, side, symbol, price, qty).0;
    assert forall|i: int| 0 <= i < steps.len() implies has_wallet(a, #[trigger] steps[i].maker.user_id@, symbol) by {
        assert(a.dom().contains(steps[i].maker.user_id@));
    }
    law_trades_find_balances(a, steps, user, side, symbol);
}

proof fn lemma_rest_order_users(l: Map<i64, Seq<RestingOrder>>, price: i64, o: RestingOrder, users: Set<Seq<char>>)
    requires
        users_within(l, users),
        users.contains(o.user_id@),
    ensures
        users_within(rest_order(l, price, o), users),
{
    let l2 = rest_order(l, price, o);
    assert forall|k: i64, i: int| #![trigger l2[k][i]] l2.contains_key(k) && 0 <= i < l2[k].len() implies users.contains(l2[k][i].user_id@) by {
        if k == price {
            if l.contains_key(price) && i < l[price].len() {
                assert(l2[k][i] == l[price][i]);
            }
        }
    }
}

/// Law: handling a request keeps a store funded.
pub proof fn law_handle_keeps_funded(old: Store, new: Store, request: QueueRequest, r: Result<QueueResponse<OrderAck>, QueueResponse<String>>)
    requires
        old.wf(),
        funded(old),
        handled(old, new, request, r),
    ensures
        funded(new),
{
    match request {
        QueueRequest::InitUserBalance { payload, .. } => {
            let u = payload.user_id@;
            assert forall|m: Seq<char>| #[trigger] new.orderbooks@.contains_key(m) implies users_within(levels(new.orderbooks@[m].bids), new.balances@.dom())
                && users_within(levels(new.orderbooks@[m].asks), new.balances@.dom()) by {
                let lb = levels(new.orderbooks@[m].bids);
                let la = levels(new.orderbooks@[m].asks);
                assert(users_within(levels(old.orderbooks@[m].bids), old.balances@.dom()));
                assert(users_within(levels(old.orderbooks@[m].asks), old.balances@.dom()));
                assert forall|k: i64, i: int| #![trigger lb[k][i]] lb.contains_key(k) && 0 <= i < lb[k].len() implies new.balances@.dom().contains(lb[k][i].user_id@) by {
                    assert(old.balances@.dom().contains(lb[k][i].user_id@));
                }
                assert forall|k: i64, i: int| #![trigger la[k][i]] la.contains_key(k) && 0 <= i < la[k].len() implies new.balances@.dom().contains(la[k][i].user_id@) by {
                    assert(old.balances@.dom().contains(la[k][i].user_id@));
                }
            }
            assert forall|v: Seq<char>, m: Seq<char>|
                #![trigger new.balances@.contains_key(v), new.orderbooks@.contains_key(m)]
                new.balances@.contains_key(v) && new.orderbooks@.contains_key(m) implies new.balances@[v].contains_key(m) by {
                if !old.balances@.contains_key(u) && v == u {
                    assert(m == sol() || m == btc());
                } else {
                    assert(old.balances@.contains_key(v) && old.orderbooks@.contains_key(m));
                }
            }
        },
        QueueRequest::CreateOrder { payload: p, .. } => {
            if old.orderbooks@.contains_key(p.symbol@) && old.balances@.contains_key(p.user_id@)
                && p.order_type == crate::requests::OrderType::Limit && p.price is Some
                && can_afford(old, p, p.price->0) {
                let price = p.price->0;
                let side = book_side(p.side);
                let user = p.user_id@;
                let symbol = p.symbol@;
                let (order_id, evs, o) = choose|order_id: Seq<char>, evs: Seq<FillEvent>, o: RestingOrder|
                    order_id.len() == 36 && #[trigger] placed(old, new, user, side, symbol, price, p.qty, order_id, evs, o);
                assert(placed(old, new, user, side, symbol, price, p.qty, order_id, evs, o));
                let ms = matched(old, side, symbol, price, p.qty);
                let a0 = old.balances@;
                let users = a0.dom();
                let book0 = old.orderbooks@[symbol];
                lemma_levels_finite_of(book0, side);
                law_match_keeps_users(book0.opposite(side), side, price, p.qty as int, users);
                let steps = ms.0;
                assert forall|i: int| 0 <= i < steps.len() implies has_wallet(a0, #[trigger] steps[i].maker.user_id@, symbol) by {
                    assert(users.contains(steps[i].maker.user_id@));
                }
                law_trades_find_balances(a0, steps, user, side, symbol);
                let a1 = apply_steps(a0, steps, user, side, symbol)->Done_0;
                assert(same_shape(a0, a1));
                assert(same_shape(a0, new.balances@)) by {
                    if ms.2 > 0 {
                        assert(a1.contains_key(user));
                    }
                }
                assert(new.balances@.dom() =~= users);
                assert forall|m: Seq<char>| #[trigger] new.orderbooks@.contains_key(m) implies users_within(levels(new.orderbooks@[m].bids), users)
                    && users_within(levels(new.orderbooks@[m].asks), users) by {
                    assert(old.orderbooks@.contains_key(m));
                    if m == symbol {
                        assert(users_within(levels(book0.bids), users));
                        assert(users_within(levels(book0.asks), users));
                        if ms.2 > 0 {
                            match side {
                                OrderSide::Buy => lemma_rest_order_users(levels(book0.bids), price, o, users),
                                OrderSide::Sell => lemma_rest_order_users(ms.1, price, o, users),
                            }
                        }
                    }
                }
                assert forall|v: Seq<char>, m: Seq<char>|
                    #![trigger new.balances@.contains_key(v), new.orderbooks@.contains_key(m)]
                    new.balances@.contains_key(v) && new.orderbooks@.contains_key(m) implies new.balances@[v].contains_key(m) by {
                    assert(old.balances@.contains_key(v) && old.orderbooks@.contains_key(m));
                }
                assert forall|v: Seq<char>| #[trigger] new.balances@.contains_key(v) implies new.balances@[v].contains_key(primary()) by {
                    assert(old.balances@.contains_key(v));
                }
            }
        },
        _ => {},
    }
}

/// Law: initialising a user's balance a second time changes nothing.
pub proof fn law_init_balance_idempotent(
    s0: Store,
    s1: Store,
    s2: Store,
    request: QueueRequest,
    r1: Result<QueueResponse<OrderAck>, QueueResponse<String>>,
    r2: Result<QueueResponse<OrderAck>, QueueResponse<String>>,
)
    requires
        request is InitUserBalance,
        handled(s0, s1, request, r1),
        handled(s1, s2, request, r2),
    ensures
        same_store(s1, s2),
        s1.balances@.contains_key(request->InitUserBalance_payload.user_id@),
{
}

/// Law: locking moves an amount of a user's primary balance from available
/// to locked; what the user holds is unchanged.
pub proof fn law_lock_keeps_holding(a: Accounts, user: Seq<char>, amount: int)
    requires
        a.contains_key(user),
        a[user].contains_key(primary()),
        fits(a[user][primary()].available - amount),
        fits(a[user][primary()].locked + amount),
    ensures
        lock(a, user, amount)[user][primary()].available == a[user][primary()].available - amount,
        lock(a, user, amount)[user][primary()].locked == a[user][primary()].locked + amount,
        holding(lock(a, user, amount), user, primary()) == holding(a, user, primary()),
        forall|u: Seq<char>, c: Seq<char>| !(u == user && c == primary()) ==> #[trigger] holding(lock(a, user, amount), u, c) == holding(a, u, c),
{
}

/// Law: handling any request but a balance initialisation keeps what all
/// users hold of each currency altogether: matching, settling and resting
/// an order only move amounts between users, and between the available and
/// the locked part of a balance.
pub proof fn law_handle_keeps_totals(old: Store, new: Store, request: QueueRequest, r: Result<QueueResponse<OrderAck>, QueueResponse<String>>)
    requires
        old.wf(),
        handle_fits(old, request),
        handled(old, new, request, r),
        !(request is InitUserBalance),
    ensures
        forall|c: Seq<char>| #[trigger] total_held(new.balances@, c) == total_held(old.balances@, c),
{
    old.balances.accounts.lemma_finite();
    let a0 = old.balances@;
    assert(a0.dom() =~= old.balances.accounts@.dom());
    if let QueueRequest::CreateOrder { payload: p, .. } = request {
        if old.orderbooks@.contains_key(p.symbol@) && old.balances@.contains_key(p.user_id@)
            && p.order_type == crate::requests::OrderType::Limit && p.price is Some
            && can_afford(old, p, p.price->0) {
            let price = p.price->0;
            let side = book_side(p.side);
            let user = p.user_id@;
            let symbol = p.symbol@;
            let (order_id, evs, o) = choose|order_id: Seq<char>, evs: Seq<FillEvent>, o: RestingOrder|
                order_id.len() == 36 && #[trigger] placed(old, new, user, side, symbol, price, p.qty, order_id, evs, o);
            assert(placed(old, new, user, side, symbol, price, p.qty, order_id, evs, o));
            let ms = matched(old, side, symbol, price, p.qty);
            law_steps_keep_totals(a0, ms.0, user, side, symbol);
            let a1 = apply_steps(a0, ms.0, user, side, symbol)->Done_0;
            if ms.2 > 0 {
                let amount = price * ms.2;
                law_lock_keeps_holding(a1, user, amount);
                let a2 = lock(a1, user, amount);
                assert(a2.dom() =~= a1.dom());
                assert forall|c: Seq<char>| #[trigger] total_held(a2, c) == total_held(a1, c) by {
                    assert forall|u: Seq<char>| #[trigger] a1.dom().contains(u) implies holding(a2, u, c) == holding(a1, u, c) by {
                        if !(u == user && c == primary()) {
                            assert(holding(lock(a1, user, amount), u, c) == holding(a1, u, c));
                        }
                    }
                    lemma_held_same(a2, a1, a1.dom(), c);
                }
            }
        }
    }
}

proof fn lemma_events_qty(evs: Seq<FillEvent>, steps: Seq<FillStep>, user: Seq<char>, side: OrderSide)
    requires
        events_of(evs, steps, user, side),
    ensures
        event_qty_total(evs) == total_qty(steps),
    decreases evs.len(),
{
    if evs.len() > 0 {
        let n = evs.len() - 1;
        let e2 = evs.drop_last();
        let s2 = steps.drop_last();
        assert forall|i: int| 0 <= i < e2.len() implies #[trigger] event_of(e2[i], s2[i], user, side) by {
            assert(event_of(evs[i], steps[i], user, side));
        }
        lemma_events_qty(e2, s2, user, side);
        assert(event_of(evs[n], steps[n], user, side));
        let last = seq![steps[n]];
        lemma_total_concat(s2, last);
        assert(s2 + last =~= steps);
        assert(last.drop_first() =~= Seq::<FillStep>::empty());
        assert(total_qty(Seq::<FillStep>::empty()) == 0);
        assert(total_qty(last) == steps[n].qty);
        assert(evs.last().qty == steps[n].qty);
        assert(event_qty_total(evs) == event_qty_total(e2) + evs.last().qty);
    }
}

/// Law: handling a request keeps every order record's filled quantity equal
/// to what the fills recorded in it add up to.
pub proof fn law_handle_keeps_records_consistent(old: Store, new: Store, request: QueueRequest, r: Result<QueueResponse<OrderAck>, QueueResponse<String>>)
    requires
        old.wf(),
        handle_fits(old, request),
        handled(old, new, request, r),
        records_consistent(records_view(old.orders)),
    ensures
        records_consistent(records_view(new.orders)),
{
    if let QueueRequest::CreateOrder { payload: p, .. } = request {
        if accepted(old, p) {
            let price = p.price->0;
            let side = book_side(p.side);
            let user = p.user_id@;
            let symbol = p.symbol@;
            let (order_id, evs, o) = choose|order_id: Seq<char>, evs: Seq<FillEvent>, o: RestingOrder|
                order_id.len() == 36 && #[trigger] placed(old, new, user, side, symbol, price, p.qty, order_id, evs, o);
            assert(placed(old, new, user, side, symbol, price, p.qty, order_id, evs, o));
            let ms = matched(old, side, symbol, price, p.qty);
            let rv = records_view(old.orders);
            assert forall|i: int| 0 <= i < evs.len() implies #[trigger] event_qtys(evs)[i] == step_qtys(ms.0)[i] by {
                assert(event_of(evs[i], ms.0[i], user, side));
            }
            assert(event_qtys(evs) =~= step_qtys(ms.0));
            lemma_record_makers_consistent(rv, evs, order_id, symbol);
            let book0 = old.orderbooks@[symbol];
            assert(old.orderbooks@.contains_key(symbol));
            lemma_levels_finite_of(book0, side);
            lemma_match_side_total(book0.opposite(side), side, price, p.qty as int);
            lemma_events_qty(evs, ms.0, user, side);
            lemma_fills_of_qty(evs, order_id, symbol);
            let filled = p.qty - ms.2;
            assert(0 <= filled <= i64::MAX) by {
                if p.qty <= 0 {
                    assert(ms.2 == p.qty);
                }
            }
            let tr = taker_record(order_id, user, side, symbol, price, p.qty, filled, evs);
            assert(tr.filled_qty == views_qty(tr.fills));
        }
    }
}

/// The limit order of `p` passes every check of `handle`: its market
/// exists, its user has balances, it has a price and its user can afford it.
pub open spec fn accepted(s: Store, p: CreateOrderPayload) -> bool {
    &&& s.orderbooks@.contains_key(p.symbol@)
    &&& s.balances@.contains_key(p.user_id@)
    &&& p.order_type == crate::requests::OrderType::Limit
    &&& p.price is Some
    &&& can_afford(s, p, p.price->0)
}

/// Law: what is left of an accepted limit order rests at the back of the
/// bids at its price: the level afterwards is the level as the match left it
/// (empty if there was none) followed by the new order, which belongs to the
/// order's user, has its price and quantity and has the matched quantity
/// filled; every other bid level is as the match left it. When nothing is
/// left, the bids are as the match left them.
pub proof fn law_remainder_rests_at_back(old: Store, new: Store, request: QueueRequest, r: Result<QueueResponse<OrderAck>, QueueResponse<String>>)
    requires
        handled(old, new, request, r),
        request is CreateOrder,
        accepted(old, request->CreateOrder_payload),
    ensures
        ({
            let p = request->CreateOrder_payload;
            let side = book_side(p.side);
            let price = p.price->0;
            let book0 = old.orderbooks@[p.symbol@];
            let ms = matched(old, side, p.symbol@, price, p.qty);
            let before = match side {
                OrderSide::Buy => levels(book0.bids),
                OrderSide::Sell => ms.1,
            };
            let after = levels(new.orderbooks@[p.symbol@].bids);
            let old_level = if before.contains_key(price) { before[price] } else { Seq::<RestingOrder>::empty() };
            &&& ms.2 <= 0 ==> after == before
            &&& ms.2 > 0 ==> {
                &&& after.contains_key(price)
                &&& after[price].len() == old_level.len() + 1
                &&& forall|i: int| 0 <= i < old_level.len() ==> #[trigger] after[price][i] == old_level[i]
                &&& after[price][old_level.len() as int].user_id@ == p.user_id@
                &&& after[price][old_level.len() as int].side == side
                &&& after[price][old_level.len() as int].price == price
                &&& after[price][old_level.len() as int].qty == p.qty
                &&& after[price][old_level.len() as int].filled_qty == p.qty - ms.2
                &&& forall|k: i64| k != price ==> (#[trigger] after.contains_key(k) == before.contains_key(k))
                &&& forall|k: i64| k != price && #[trigger] after.contains_key(k) ==> after[k] == before[k]
            }
        }),
{
    let p = request->CreateOrder_payload;
    let price = p.price->0;
    let side = book_side(p.side);
    let user = p.user_id@;
    let symbol = p.symbol@;
    let (order_id, evs, o) = choose|order_id: Seq<char>, evs: Seq<FillEvent>, o: RestingOrder|
        order_id.len() == 36 && #[trigger] placed(old, new, user, side, symbol, price, p.qty, order_id, evs, o);
    assert(placed(old, new, user, side, symbol, price, p.qty, order_id, evs, o));
}

/// Law: the balance check of a limit order (whose market exists and whose
/// user has balances) refuses it exactly when the user cannot pay: a buy
/// when its available primary balance is below `price * qty`, a sell when
/// its available asset, in whole units (`PRICE_SCALE` times its count of
/// units, in the units of `price * qty`), is below `price * qty`. A
/// missing balance counts as zero.
pub proof fn law_balance_check(old: Store, new: Store, request: QueueRequest, r: Result<QueueResponse<OrderAck>, QueueResponse<String>>)
    requires
        handled(old, new, request, r),
        request is CreateOrder,
        old.orderbooks@.contains_key(request->CreateOrder_payload.symbol@),
        old.balances@.contains_key(request->CreateOrder_payload.user_id@),
        request->CreateOrder_payload.order_type == crate::requests::OrderType::Limit,
        request->CreateOrder_payload.price is Some,
    ensures
        ({
            let p = request->CreateOrder_payload;
            let price = p.price->0;
            let w = old.balances@[p.user_id@];
            let cash = if w.contains_key(primary()) { w[primary()].available as int } else { 0 };
            let asset = if w.contains_key(p.symbol@) { w[p.symbol@].available as int } else { 0 };
            let short = match book_side(p.side) {
                OrderSide::Buy => cash < price * p.qty,
                OrderSide::Sell => asset * PRICE_SCALE < price * p.qty,
            };
            &&& r is Err <==> short
            &&& short ==> r->Err_0.data@ == "User has insufficient balance"@
        }),
{
}

/// Law: initialising a user's balance gives a user without balances 1000
/// whole units of `INR`, `SOL` and `BTC`, all available, and nothing else;
/// it leaves a user with balances, and every other user, as they were.
pub proof fn law_init_gives_starting_funds(old: Store, new: Store, request: QueueRequest, r: Result<QueueResponse<OrderAck>, QueueResponse<String>>)
    requires
        handled(old, new, request, r),
        request is InitUserBalance,
    ensures
        ({
            let u = request->InitUserBalance_payload.user_id@;
            &&& r is Ok
            &&& new.balances@.contains_key(u)
            &&& forall|v: Seq<char>| v != u ==> (#[trigger] new.balances@.contains_key(v) == old.balances@.contains_key(v))
            &&& forall|v: Seq<char>| v != u && #[trigger] new.balances@.contains_key(v) ==> new.balances@[v] == old.balances@[v]
            &&& old.balances@.contains_key(u) ==> new.balances@[u] == old.balances@[u]
            &&& !old.balances@.contains_key(u) ==> {
                &&& new.balances@[u].dom() == set![primary(), sol(), btc()]
                &&& new.balances@[u][primary()] == Balance { available: (1000 * PRICE_SCALE * QTY_SCALE) as i64, locked: 0 }
                &&& new.balances@[u][sol()] == Balance { available: (1000 * QTY_SCALE) as i64, locked: 0 }
                &&& new.balances@[u][btc()] == Balance { available: (1000 * QTY_SCALE) as i64, locked: 0 }
            }
        }),
{
    let u = request->InitUserBalance_payload.user_id@;
    if !old.balances@.contains_key(u) {
        assert(sol()[0] != primary()[0]);
        assert(btc()[0] != primary()[0]);
        assert(btc()[0] != sol()[0]);
        assert(new.balances@[u].dom() =~= set![primary(), sol(), btc()]);
    }
}

/// Law: an accepted limit order is recorded under a new 36-character id,
/// with its user, side, market, price and quantity, the quantity the match
/// filled, the status that this gives (open while nothing is filled, partly
/// filled while not all is, filled once all is), and one fill of its market
/// for each trade, with the trade's price and quantity.
pub proof fn law_order_recorded(old: Store, new: Store, request: QueueRequest, r: Result<QueueResponse<OrderAck>, QueueResponse<String>>)
    requires
        old.wf(),
        handled(old, new, request, r),
        request is CreateOrder,
        accepted(old, request->CreateOrder_payload),
    ensures
        ({
            let p = request->CreateOrder_payload;
            let side = book_side(p.side);
            let price = p.price->0;
            let ms = matched(old, side, p.symbol@, price, p.qty);
            let filled = p.qty - ms.2;
            exists|id: Seq<char>| {
                let rec = #[trigger] records_view(new.orders)[id];
                &&& id.len() == 36
                &&& records_view(new.orders).contains_key(id)
                &&& rec.order_id == id
                &&& rec.user_id == p.user_id@
                &&& rec.side == side
                &&& rec.order_type == OrderType::Limit
                &&& rec.symbol == p.symbol@
                &&& rec.price == Some(price)
                &&& rec.qty == p.qty
                &&& rec.filled_qty == filled
                &&& (filled == 0 ==> rec.status == OrderStatus::Open)
                &&& (0 < filled < p.qty ==> rec.status == OrderStatus::PartialFilled)
                &&& (0 < filled == p.qty ==> rec.status == OrderStatus::Filled)
                &&& rec.fills.len() == ms.0.len()
                &&& forall|i: int| #![trigger rec.fills[i]] 0 <= i < rec.fills.len() ==> rec.fills[i].symbol == p.symbol@
                    && rec.fills[i].price == ms.0[i].price && rec.fills[i].qty == ms.0[i].qty
            }
        }),
{
    let p = request->CreateOrder_payload;
    let price = p.price->0;
    let side = book_side(p.side);
    let user = p.user_id@;
    let symbol = p.symbol@;
    let (order_id, evs, o) = choose|order_id: Seq<char>, evs: Seq<FillEvent>, o: RestingOrder|
        order_id.len() == 36 && #[trigger] placed(old, new, user, side, symbol, price, p.qty, order_id, evs, o);
    assert(placed(old, new, user, side, symbol, price, p.qty, order_id, evs, o));
    let ms = matched(old, side, symbol, price, p.qty);
    let book0 = old.orderbooks@[symbol];
    assert(old.orderbooks@.contains_key(symbol));
    lemma_levels_finite_of(book0, side);
    lemma_match_side_total(book0.opposite(side), side, price, p.qty as int);
    let filled = p.qty - ms.2;
    assert(0 <= filled <= i64::MAX) by {
        if p.qty <= 0 {
            assert(ms.2 == p.qty);
        }
    }
    if p.qty >= 0 {
        law_status_follows_filled(p.qty as int, filled);
    }
    law_fill_records_event(evs, order_id, symbol);
    let rec = records_view(new.orders)[order_id];
    assert forall|i: int| #![trigger rec.fills[i]] 0 <= i < rec.fills.len() implies rec.fills[i].symbol == symbol
        && rec.fills[i].price == ms.0[i].price && rec.fills[i].qty == ms.0[i].qty by {
        assert(event_of(evs[i], ms.0[i], user, side));
    }
    assert(records_view(new.orders).contains_key(order_id));
}

/// Every book of the store is tidy on both sides.
pub open spec fn books_tidy(s: Store) -> bool {
    forall|m: Seq<char>| #[trigger] s.orderbooks@.contains_key(m) ==> tidy(levels(s.orderbooks@[m].bids)) && tidy(
        levels(s.orderbooks@[m].asks),
    )
}

proof fn lemma_rest_order_tidy(l: Map<i64, Seq<RestingOrder>>, price: i64, o: RestingOrder)
    requires
        tidy(l),
        o.price == price,
    ensures
        tidy(rest_order(l, price, o)),
{
    let l2 = rest_order(l, price, o);
    assert forall|k: i64| #[trigger] l2.contains_key(k) implies l2[k].len() > 0 && forall|i: int|
        0 <= i < l2[k].len() ==> #[trigger] l2[k][i].price == k by {
        if k == price && l.contains_key(price) {
            assert forall|i: int| 0 <= i < l2[k].len() implies #[trigger] l2[k][i].price == k by {
                if i < l[price].len() {
                    assert(l2[k][i] == l[price][i]);
                }
            }
        }
    }
}

/// Law: handling a request keeps every book tidy: no empty price level, and
/// every resting order at its level's price.
pub proof fn law_handle_keeps_tidy(old: Store, new: Store, request: QueueRequest, r: Result<QueueResponse<OrderAck>, QueueResponse<String>>)
    requires
        books_tidy(old),
        handled(old, new, request, r),
    ensures
        books_tidy(new),
{
    if let QueueRequest::CreateOrder { payload: p, .. } = request {
        if accepted(old, p) {
            let price = p.price->0;
            let side = book_side(p.side);
            let user = p.user_id@;
            let symbol = p.symbol@;
            let (order_id, evs, o) = choose|order_id: Seq<char>, evs: Seq<FillEvent>, o: RestingOrder|
                order_id.len() == 36 && #[trigger] placed(old, new, user, side, symbol, price, p.qty, order_id, evs, o);
            assert(placed(old, new, user, side, symbol, price, p.qty, order_id, evs, o));
            let book0 = old.orderbooks@[symbol];
            let ms = matched(old, side, symbol, price, p.qty);
            lemma_levels_finite_of(book0, side);
            assert(old.orderbooks@.contains_key(symbol));
            law_match_keeps_tidy(book0.opposite(side), side, price, p.qty as int);
            assert forall|m: Seq<char>| #[trigger] new.orderbooks@.contains_key(m) implies tidy(levels(new.orderbooks@[m].bids))
                && tidy(levels(new.orderbooks@[m].asks)) by {
                assert(old.orderbooks@.contains_key(m));
                if m == symbol && ms.2 > 0 {
                    match side {
                        OrderSide::Buy => lemma_rest_order_tidy(levels(book0.bids), price, o),
                        OrderSide::Sell => lemma_rest_order_tidy(ms.1, price, o),
                    }
                }
            }
        }
    }
}

/// Law: in a funded store, when an accepted limit order trades with no
/// order of its own user, handling it changes the user's balances by
/// exactly this: a buyer pays the total cost of its trades and receives
/// their total quantity, a seller is paid that cost and
/// gives up that quantity, and `price` times what is left of the order (if
/// anything) moves from the available to the locked primary balance.
pub proof fn law_handle_taker_change(old: Store, new: Store, request: QueueRequest, r: Result<QueueResponse<OrderAck>, QueueResponse<String>>)
    requires
        handle_fits(old, request),
        handled(old, new, request, r),
        request is CreateOrder,
        accepted(old, request->CreateOrder_payload),
        funded(old),
        ({
            let p = request->CreateOrder_payload;
            let steps = matched(old, book_side(p.side), p.symbol@, p.price->0, p.qty).0;
            forall|i: int| 0 <= i < steps.len() ==> #[trigger] steps[i].maker.user_id@ != p.user_id@
        }),
    ensures
        ({
            let p = request->CreateOrder_payload;
            let side = book_side(p.side);
            let price = p.price->0;
            let ms = matched(old, side, p.symbol@, price, p.qty);
            let locked: int = if ms.2 > 0 { price * ms.2 } else { 0 };
            let p0 = old.balances@[p.user_id@][primary()];
            let s0 = old.balances@[p.user_id@][p.symbol@];
            let p1 = new.balances@[p.user_id@][primary()];
            let s1 = new.balances@[p.user_id@][p.symbol@];
            &&& p1.locked == p0.locked + locked
            &&& s1.locked == s0.locked
            &&& match side {
                OrderSide::Buy => p1.available == p0.available - total_cost(ms.0) - locked
                    && s1.available == s0.available + total_qty(ms.0),
                OrderSide::Sell => p1.available == p0.available + total_cost(ms.0) - locked
                    && s1.available == s0.available - total_qty(ms.0),
            }
        }),
{
    let p = request->CreateOrder_payload;
    let price = p.price->0;
    let side = book_side(p.side);
    let user = p.user_id@;
    let symbol = p.symbol@;
    let (order_id, evs, o) = choose|order_id: Seq<char>, evs: Seq<FillEvent>, o: RestingOrder|
        order_id.len() == 36 && #[trigger] placed(old, new, user, side, symbol, price, p.qty, order_id, evs, o);
    assert(placed(old, new, user, side, symbol, price, p.qty, order_id, evs, o));
    let ms = matched(old, side, symbol, price, p.qty);
    assert(symbol != primary()) by {
        assert(old.orderbooks@.contains_key(symbol));
        assert(sol()[0] != primary()[0]);
        assert(btc()[0] != primary()[0]);
    }
    law_steps_taker_change(old.balances@, ms.0, user, side, symbol);
}

impl Engine {
    /// Checks that `user_id`'s available balance in `check_balance_for`,
    /// multiplied by `scale`, covers `total_price`, and that book `symbol`
    /// exists.
    fn validate_limit_order(&self, user_id: &str, check_balance_for: &str, symbol: &str, total_price: i64, scale: i64) -> (r: Result<(), &'static str>)
        requires
            self.store.wf(),
            scale >= 1,
        ensures
            ({
                let a = self.store.balances@;
                let avail = if a.contains_key(user_id@) && a[user_id@].contains_key(check_balance_for@) {
                    a[user_id@][check_balance_for@].available * scale
                } else {
                    0
                };
                if avail < total_price {
                    r matches Err(m) && m@ == "User has insufficient balance"@
                } else if !self.store.orderbooks@.contains_key(symbol@) {
                    r matches Err(m) && m@ == "orderbook not found"@
                } else {
                    r is Ok
                }
            }),
    {
        let available_balance: i64 = match self.store.balances.accounts.get(user_id) {
            Some(b) => match b.get(check_balance_for) {
                Some(balance) => balance.available,
                None => 0,
            },
            None => 0,
        };
        proof {
            assert(self.store.balances.accounts@.contains_key(user_id@) ==> self.store.balances@[user_id@]
                == self.store.balances.accounts@[user_id@]@);
        }
        let wide_balance = available_balance as i128;
        let wide_scale = scale as i128;
        proof {
            assert(-0x8000_0000_0000_0000_0000_0000_0000_0000 <= wide_balance * wide_scale <= 0x7fff_ffff_ffff_ffff_ffff_ffff_ffff_ffff) by (nonlinear_arith)
                requires
                    -0x8000_0000_0000_0000 <= wide_balance <= 0x7fff_ffff_ffff_ffff,
                    1 <= wide_scale <= 0x7fff_ffff_ffff_ffff,
            ;
        }
        if wide_balance * wide_scale < total_price as i128 {
            return Err("User has insufficient balance");
        }
        if !self.store.orderbooks.contains_key(symbol) {
            return Err("orderbook not found");
        }
        Ok(())
    }

    /// Gives `user_id` 1000 whole units of the primary currency, of `SOL`
    /// and of `BTC`, unless it already has balances.
    fn init_user_balance(&mut self, user_id: &String)
        requires
            old(self).store.wf(),
        ensures
            final(self).store.wf(),
            final(self).store.balances@ == if old(self).store.balances@.contains_key(user_id@) {
                old(self).store.balances@
            } else {
                old(self).store.balances@.insert(user_id@, starting_wallet())
            },
            final(self).store.orderbooks == old(self).store.orderbooks,
            final(self).store.orders == old(self).store.orders,
            final(self).store.fills == old(self).store.fills,
    {
        if !self.store.balances.accounts.contains_key(user_id) {
            let mut wallet = Table::new();
            wallet.insert(PRIMARY_CURRENCY.to_owned(), Balance { available: INITIAL_CASH, locked: 0 });
            wallet.insert("SOL".to_owned(), Balance { available: INITIAL_ASSET, locked: 0 });
            wallet.insert("BTC".to_owned(), Balance { available: INITIAL_ASSET, locked: 0 });
            let ghost before = self.store.balances@;
            self.store.balances.accounts.insert(user_id.clone(), wallet);
            proof {
                reveal_strlit("INR");
                reveal_strlit("SOL");
                reveal_strlit("BTC");
                assert(PRIMARY_CURRENCY@ == primary());
                assert("SOL"@ == sol());
                assert("BTC"@ == btc());
                assert(wallet@ =~= starting_wallet());
                assert(self.store.balances@ =~= before.insert(user_id@, starting_wallet()));
            }
        }
    }

    /// The success response to the request with id `correlation_id`.
    fn acknowledge(correlation_id: &str) -> (r: QueueResponse<OrderAck>)
        ensures
            acknowledged(Ok(r), correlation_id@),
    {
        QueueResponse {
            correlation_id: correlation_id.to_owned(),
            ok: true,
            data: OrderAck {
                order_id: "currentOrderId".to_owned(),
                status: OrderStatus::Open,
                filled_qty: 0,
                average_price: "".to_owned(),
                fills: Vec::new(),
            },
        }
    }

    /// The failure response with `message` to the request with id
    /// `correlation_id`.
    fn refuse(correlation_id: &str, message: String) -> (r: QueueResponse<String>)
        ensures
            refused(Err(r), correlation_id@, message@),
    {
        QueueResponse { correlation_id: correlation_id.to_owned(), ok: false, data: message }
    }

    /// Handles one request. `InitUserBalance` funds a new user; `CreateOrder`
    /// checks that the book and the user exist and, for a limit order with a
    /// price, that the user can afford it, then matches, settles and records
    /// it and rests what is left. The other requests change nothing yet.
    pub fn handle(&mut self, request: QueueRequest) -> (r: Result<QueueResponse<OrderAck>, QueueResponse<String>>)
        requires
            old(self).store.wf(),
            handle_fits(old(self).store, request),
        ensures
            final(self).store.wf(),
            handled(old(self).store, final(self).store, request, r),
    {
        let ghost old_store = self.store;
        match &request {
            QueueRequest::InitUserBalance { payload, .. } => {
                self.init_user_balance(&payload.user_id);
            },
            QueueRequest::CreateOrder { payload, .. } => {
                if !self.store.orderbooks.contains_key(&payload.symbol) {
                    let mut message = "Orderbook does not exist for symbol ".to_owned();
                    message.append(&payload.symbol);
                    return Err(Self::refuse(request.correlation_id(), message));
                }
                if !self.store.balances.accounts.contains_key(&payload.user_id) {
                    let mut message = "User ".to_owned();
                    message.append(&payload.user_id);
                    message.append(" have no balance on the server");
                    return Err(Self::refuse(request.correlation_id(), message));
                }
                let current_order_id = new_id();
                if payload.order_type == crate::requests::OrderType::Limit {
                    match payload.price {
                        Some(price) => {
                            let side = payload.side.to_book_side();
                            let total_price = price * payload.qty;
                            proof {
                                reveal_strlit("INR");
                                assert(PRIMARY_CURRENCY@ == primary());
                            }
                            let checked = match side {
                                OrderSide::Buy => self.validate_limit_order(
                                    &payload.user_id,
                                    PRIMARY_CURRENCY,
                                    &payload.symbol,
                                    total_price,
                                    1,
                                ),
                                OrderSide::Sell => self.validate_limit_order(
                                    &payload.user_id,
                                    &payload.symbol,
                                    &payload.symbol,
                                    total_price,
                                    PRICE_SCALE,
                                ),
                            };
                            proof {
                                assert(checked is Ok <==> can_afford(old_store, *payload, price));
                            }
                            match checked {
                                Err(msg) => {
                                    return Err(Self::refuse(request.correlation_id(), msg.to_owned()));
                                },
                                Ok(()) => {},
                            }
                            self.place_limit(&payload.user_id, side, &payload.symbol, price, payload.qty, current_order_id);
                        },
                        None => {},
                    }
                }
            },
            _ => {},
        }
        Ok(Self::acknowledge(request.correlation_id()))
    }

    /// Matches, settles and records a limit order that passed the checks,
    /// then rests what is left of it among the bids and locks its cost.
    fn place_limit(&mut self, user_id: &str, side: OrderSide, symbol: &str, price: i64, qty: i64, order_id: String)
        requires
            old(self).store.wf(),
            old(self).store.orderbooks@.contains_key(symbol@),
            place_fits(old(self).store, user_id@, side, symbol@, price, qty),
        ensures
            final(self).store.wf(),
            exists|evs: Seq<FillEvent>, o: RestingOrder| #[trigger]
                placed(old(self).store, final(self).store, user_id@, side, symbol@, price, qty, order_id@, evs, o),
    {
        let ghost old_store = self.store;
        let ghost ms = matched(old_store, side, symbol@, price, qty);
        let ghost book0 = self.store.orderbooks@[symbol@];
        let match_result = self.store.orderbooks.get_mut(symbol).unwrap().match_limit(user_id, side, price, qty);
        let ghost evs = match_result.fills@;
        proof {
            lemma_apply_events(self.store.balances@, evs, ms.0, user_id@, side, symbol@);
            assert(book0 == old_store.orderbooks@[symbol@]);
            assert(events_of(evs, ms.0, user_id@, side));
            assert forall|i: int| 0 <= i < evs.len() implies #[trigger] event_qtys(evs)[i] == step_qtys(ms.0)[i] by {
                assert(crate::models::book::event_of(evs[i], ms.0[i], user_id@, side));
            }
            assert(event_qtys(evs) =~= step_qtys(ms.0));
        }
        match self.store.balances.apply_fills(match_result.fills.as_slice(), symbol) {
            Ok(()) => {},
            Err(_) => {
                proof {
                    assert(false);
                }
            },
        }
        let ghost a1 = self.store.balances@;
        self.store.record_match(
            user_id,
            order_id.clone(),
            symbol,
            side,
            OrderType::Limit,
            qty,
            &match_result,
        );
        let ghost after_record = self.store;
        let ghost rem = match_result.remaining_qty as int;
        let ghost filled = qty - rem;
        let ghost mut o: RestingOrder = arbitrary();
        if match_result.remaining_qty > 0 {
            let fill_qty = match_result.filled_qty;
            let current_order = RestingOrder {
                order_id: order_id.clone(),
                user_id: user_id.to_owned(),
                side,
                order_type: OrderType::Limit,
                symbol: symbol.to_owned(),
                price,
                qty,
                filled_qty: fill_qty,
                status: match_result.taker_final_status,
                created_at: now_millis(),
            };
            proof {
                o = current_order;
            }
            let orderbook = self.store.orderbooks.get_mut(symbol).unwrap();
            let ghost bids_before = orderbook.bids;
            let mut level = match orderbook.bids.remove(&price) {
                Some(q) => q,
                None => VecDeque::new(),
            };
            level.push_back(current_order);
            orderbook.bids.insert(price, level);
            proof {
                assert(levels(orderbook.bids) =~= rest_order(levels(bids_before), price, o));
                assert(valid_levels(levels(orderbook.bids))) by {
                    let lb = levels(bids_before);
                    let ln = levels(orderbook.bids);
                    assert forall|k: i64, i: int| ln.contains_key(k) && 0 <= i < ln[k].len() implies valid_order(#[trigger] ln[k][i]) by {
                        if k == price && i == ln[k].len() - 1 {
                            assert(ln[k][i] == o);
                        } else {
                            assert(ln[k][i] == lb[k][i]);
                        }
                    }
                }
            }
            if fill_qty == 0 {
                proof {
                    lemma_levels_finite_of(book0, side);
                    lemma_match_side_total(book0.opposite(side), side, price, qty as int);
                }
                let ghost orders_before = records_view(self.store.orders);
                let record = OrderRecord {
                    order_id: order_id.clone(),
                    user_id: user_id.to_owned(),
                    side,
                    order_type: OrderType::Limit,
                    symbol: symbol.to_owned(),
                    price: Some(price),
                    qty,
                    filled_qty: 0,
                    status: OrderStatus::Open,
                    fills: Vec::new(),
                    created_at: now_millis(),
                };
                let ghost rv = record@;
                let ghost rec = record;
                let ghost table_before = self.store.orders@;
                self.store.orders.insert(order_id.clone(), record);
                proof {
                    assert(self.store.orders@ == table_before.insert(order_id@, rec));
                    assert(evs.len() == 0);
                    assert(rec.fills@ =~= after_record.fills@.subrange(old_store.fills@.len() as int, after_record.fills@.len() as int));
                    assert(fills_view(record.fills@) =~= fills_of(evs, order_id@, symbol@));
                    assert(records_view(self.store.orders) =~= orders_before.insert(order_id@, rv));
                }
            }
            let remaining_total_price = price * match_result.remaining_qty;
            let ghost bal_before = self.store.balances@;
            proof {
                reveal_strlit("INR");
                assert(PRIMARY_CURRENCY@ == primary());
            }
            let user_balance = self.store.balances.accounts.get_mut(user_id).unwrap();
            let ghost wallet_before = user_balance@;
            proof {
                assert(wallet_before == bal_before[user_id@]);
            }
            let currency_balance = user_balance.get_mut(PRIMARY_CURRENCY).unwrap();
            currency_balance.available = currency_balance.available - remaining_total_price;
            currency_balance.locked = currency_balance.locked + remaining_total_price;
            proof {
                assert(self.store.balances@ =~= lock(bal_before, user_id@, price * rem));
            }
        }
        proof {
            assert(self.store.orderbooks@.dom() =~= old_store.orderbooks@.dom());
            let new = self.store;
            let book1 = new.orderbooks@[symbol@];
            assert(book0 == old_store.orderbooks@[symbol@]);
            assert(events_of(evs, ms.0, user_id@, side));
            assert(forall|k: Seq<char>| k != symbol@ && #[trigger] old_store.orderbooks@.contains_key(k) ==> new.orderbooks@[k] == old_store.orderbooks@[k]);
            assert(rem == ms.2);
            assert(match side {
                OrderSide::Buy => {
                    &&& levels(book1.asks) == ms.1
                    &&& levels(book1.bids) == if rem > 0 { rest_order(levels(book0.bids), price, o) } else { levels(book0.bids) }
                },
                OrderSide::Sell => {
                    &&& levels(book1.bids) == if rem > 0 { rest_order(ms.1, price, o) } else { ms.1 }
                    &&& levels(book1.asks) == levels(book0.asks)
                },
            });
            assert(rem > 0 ==> is_remainder(o, order_id@, user_id@, side, symbol@, price, qty, filled));
            assert(apply_steps(old_store.balances@, ms.0, user_id@, side, symbol@) matches Applied::Done(a1) && new.balances@ == if rem > 0 {
                lock(a1, user_id@, price * rem)
            } else {
                a1
            });
            assert(records_view(new.orders) == record_makers(records_view(old_store.orders), evs, order_id@, symbol@).insert(
                order_id@,
                taker_record(order_id@, user_id@, side, symbol@, price, qty, filled, evs),
            ));
            assert(fills_view(new.fills@) == fills_view(old_store.fills@) + fills_of(evs, order_id@, symbol@));
            assert(new.fills@ == after_record.fills@);
            assert forall|k: Seq<char>|
                old_store.orders@.contains_key(k) && k != order_id@ && !trades_with(evs, k) implies #[trigger] new.orders@[k] == old_store.orders@[k] by {
                assert(new.orders@[k] == after_record.orders@[k]);
            }
            assert(placed(old_store, self.store, user_id@, side, symbol@, price, qty, order_id@, evs, o));
        }
    }
    /// Whether placing the limit order (which passed the checks) keeps
    /// every amount in range and finds every balance it needs: the order is
    /// matched against a copy of its book and settled on a copy of the
    /// balances.
    fn place_fits_check(&self, user_id: &str, side: OrderSide, symbol: &str, price: i64, qty: i64) -> (b: bool)
        requires
            self.store.wf(),
            self.store.orderbooks@.contains_key(symbol@),
        ensures
            b == place_fits(self.store, user_id@, side, symbol@, price, qty),
    {
        let ghost ms = matched(self.store, side, symbol@, price, qty);
        let book = self.store.orderbooks.get(symbol).unwrap();
        let mut trial = book.copy();
        let match_result = trial.match_limit(user_id, side, price, qty);
        let ghost evs = match_result.fills@;
        proof {
            lemma_apply_events(self.store.balances@, evs, ms.0, user_id@, side, symbol@);
            assert forall|i: int| 0 <= i < evs.len() implies #[trigger] event_qtys(evs)[i] == step_qtys(ms.0)[i] by {
                assert(crate::models::book::event_of(evs[i], ms.0[i], user_id@, side));
            }
            assert(event_qtys(evs) =~= step_qtys(ms.0));
        }
        let rem = match_result.remaining_qty;
        let mut scratch = self.store.balances.copy();
        let r = scratch.apply_fills_checked(match_result.fills.as_slice(), symbol);
        if r != Outcome::Done {
            return false;
        }
        if rem > 0 {
            proof {
                reveal_strlit("INR");
                assert(PRIMARY_CURRENCY@ == primary());
            }
            let w = match scratch.accounts.get(user_id) {
                Some(w) => w,
                None => {
                    return false;
                },
            };
            let b = match w.get(PRIMARY_CURRENCY) {
                Some(b) => *b,
                None => {
                    return false;
                },
            };
            proof {
                assert(scratch@[user_id@][primary()] == b);
            }
            let x = match price.checked_mul(rem) {
                Some(x) => x,
                None => {
                    return false;
                },
            };
            if b.available.checked_sub(x).is_none() || b.locked.checked_add(x).is_none() {
                return false;
            }
        }
        self.store.record_match_fits(&match_result)
    }

    /// Whether `handle` can take `request`: whether it keeps every amount in
    /// the `i64` range and finds every balance it needs.
    pub fn can_handle(&self, request: &QueueRequest) -> (b: bool)
        requires
            self.store.wf(),
        ensures
            b == handle_fits(self.store, *request),
    {
        match request {
            QueueRequest::CreateOrder { payload, .. } => {
                if !self.store.orderbooks.contains_key(&payload.symbol) || !self.store.balances.accounts.contains_key(&payload.user_id)
                    || payload.order_type != crate::requests::OrderType::Limit {
                    return true;
                }
                let price = match payload.price {
                    Some(p) => p,
                    None => {
                        return true;
                    },
                };
                let total_price = match price.checked_mul(payload.qty) {
                    Some(t) => t,
                    None => {
                        return false;
                    },
                };
                let side = payload.side.to_book_side();
                proof {
                    reveal_strlit("INR");
                    assert(PRIMARY_CURRENCY@ == primary());
                }
                let checked = match side {
                    OrderSide::Buy => self.validate_limit_order(&payload.user_id, PRIMARY_CURRENCY, &payload.symbol, total_price, 1),
                    OrderSide::Sell => self.validate_limit_order(&payload.user_id, &payload.symbol, &payload.symbol, total_price, PRICE_SCALE),
                };
                if checked.is_err() {
                    return true;
                }
                self.place_fits_check(&payload.user_id, side, &payload.symbol, price, payload.qty)
            },
            _ => true,
        }
    }

    /// Handles `request` if `can_handle` allows it; otherwise changes
    /// nothing and gives `None`.
    pub fn handle_checked(&mut self, request: QueueRequest) -> (r: Option<Result<QueueResponse<OrderAck>, QueueResponse<String>>>)
        requires
            old(self).store.wf(),
        ensures
            final(self).store.wf(),
            match r {
                None => !handle_fits(old(self).store, request) && final(self).store == old(self).store,
                Some(res) => handle_fits(old(self).store, request) && handled(old(self).store, final(self).store, request, res),
            },
    {
        if self.can_handle(&request) {
            Some(self.handle(request))
        } else {
            None
        }
    }
}

} // verus!
