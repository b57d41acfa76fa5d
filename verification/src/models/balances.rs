//! Settling fills against the users' balances.
//!
//! Every fill moves the primary currency (`price * qty`) one way and the
//! traded asset (`qty`) the other way between the taker and the maker. A
//! buying taker pays from its available primary balance and receives the
//! asset; the selling maker receives the payment and gives up the asset from
//! its locked balance. A selling taker is paid and gives up the asset from
//! its available balance; the buying maker pays from its locked primary
//! balance and receives the asset.
use vstd::prelude::*;

use crate::models::book::{events_of, event_of, total_qty, FillStep};
use crate::models::store::{primary, Balance, Balances, Error, FillEvent, OrderSide, PRIMARY_CURRENCY};
use crate::table::Table;

verus! {

/// Every user's balances, by user and then by currency.
pub type Accounts = Map<Seq<char>, Map<Seq<char>, Balance>>;

/// The result of applying balance changes in the model: every change made,
/// a change stopped by a missing currency (with what was changed before it),
/// or a change whose result does not fit an `i64`.
pub enum Applied {
    Done(Accounts),
    Missing(Accounts),
    Overflow,
}

pub open spec fn fits(x: int) -> bool {
    i64::MIN <= x <= i64::MAX
}

/// The balances that a user is given when a fill first touches it.
pub open spec fn fresh_wallet(symbol: Seq<char>) -> Map<Seq<char>, Balance> {
    Map::empty().insert(primary(), Balance { available: 0, locked: 0 }).insert(
        symbol,
        Balance { available: 0, locked: 0 },
    )
}

/// The accounts with `user` present: as they are, or with a fresh wallet.
pub open spec fn touch(a: Accounts, user: Seq<char>, symbol: Seq<char>) -> Accounts {
    if a.contains_key(user) {
        a
    } else {
        a.insert(user, fresh_wallet(symbol))
    }
}

/// Adds `da` to the available and `dl` to the locked balance of `user` in
/// `currency`; `user` must be present.
pub open spec fn bump(a: Accounts, user: Seq<char>, currency: Seq<char>, da: int, dl: int) -> Applied {
    if !a[user].contains_key(currency) {
        Applied::Missing(a)
    } else {
        let b = a[user][currency];
        let na = b.available + da;
        let nl = b.locked + dl;
        if !fits(na) || !fits(nl) {
            Applied::Overflow
        } else {
            Applied::Done(
                a.insert(
                    user,
                    a[user].insert(currency, Balance { available: na as i64, locked: nl as i64 }),
                ),
            )
        }
    }
}

/// Changes `user`'s primary balance by (`pa`, `pl`), then its `symbol`
/// balance by (`sa`, `sl`), giving it a fresh wallet first if it has none.
pub open spec fn settle(a: Accounts, user: Seq<char>, symbol: Seq<char>, pa: int, pl: int, sa: int, sl: int) -> Applied {
    let a1 = touch(a, user, symbol);
    match bump(a1, user, primary(), pa, pl) {
        Applied::Done(a2) => bump(a2, user, symbol, sa, sl),
        r => r,
    }
}

/// Settling one trade of market `symbol` of `qty` at `price` between the
/// incoming order of `taker` (of side `side`) and the resting order of
/// `maker`.
pub open spec fn settle_trade(a: Accounts, taker: Seq<char>, maker: Seq<char>, side: OrderSide, price: int, qty: int, symbol: Seq<char>) -> Applied {
    let cost = qty * price;
    if !fits(cost) {
        Applied::Overflow
    } else {
        match side {
            OrderSide::Buy => match settle(a, taker, symbol, -cost, 0, qty, 0) {
                Applied::Done(a1) => settle(a1, maker, symbol, cost, 0, 0, -qty),
                r => r,
            },
            OrderSide::Sell => match settle(a, taker, symbol, cost, 0, -qty, 0) {
                Applied::Done(a1) => settle(a1, maker, symbol, 0, -cost, qty, 0),
                r => r,
            },
        }
    }
}

/// Applying one fill of market `symbol`.
pub open spec fn apply_fill(a: Accounts, f: FillEvent, symbol: Seq<char>) -> Applied {
    settle_trade(a, f.taker_user_id@, f.maker_user_id@, f.taker_side, f.price as int, f.qty as int, symbol)
}

/// Applying the fills in order, stopping at the first that cannot be applied.
pub open spec fn apply_all(a: Accounts, fills: Seq<FillEvent>, symbol: Seq<char>) -> Applied
    decreases fills.len(),
{
    if fills.len() == 0 {
        Applied::Done(a)
    } else {
        match apply_fill(a, fills[0], symbol) {
            Applied::Done(a1) => apply_all(a1, fills.drop_first(), symbol),
            r => r,
        }
    }
}

/// Law: applying two lists of fills one after the other is applying them
/// joined: the second list starts from where the first left the balances,
/// and nothing of it is applied when the first stops.
pub proof fn law_apply_all_concat(a: Accounts, first: Seq<FillEvent>, second: Seq<FillEvent>, symbol: Seq<char>)
    ensures
        apply_all(a, first + second, symbol) == match apply_all(a, first, symbol) {
            Applied::Done(a1) => apply_all(a1, second, symbol),
            r => r,
        },
    decreases first.len(),
{
    if first.len() == 0 {
        assert(first + second =~= second);
    } else {
        assert((first + second)[0] == first[0]);
        assert((first + second).drop_first() =~= first.drop_first() + second);
        if let Applied::Done(a1) = apply_fill(a, first[0], symbol) {
            law_apply_all_concat(a1, first.drop_first(), second, symbol);
        }
    }
}

/// Applying the trades of `steps` of an incoming order of `taker` and
/// side `side`, in order.
pub open spec fn apply_steps(a: Accounts, steps: Seq<FillStep>, taker: Seq<char>, side: OrderSide, symbol: Seq<char>) -> Applied
    decreases steps.len(),
{
    if steps.len() == 0 {
        Applied::Done(a)
    } else {
        let st = steps[0];
        match settle_trade(a, taker, st.maker.user_id@, side, st.price as int, st.qty as int, symbol) {
            Applied::Done(a1) => apply_steps(a1, steps.drop_first(), taker, side, symbol),
            r => r,
        }
    }
}

/// Fill events that record trades settle as the trades do.
pub proof fn lemma_apply_events(a: Accounts, evs: Seq<FillEvent>, steps: Seq<FillStep>, taker: Seq<char>, side: OrderSide, symbol: Seq<char>)
    requires
        events_of(evs, steps, taker, side),
    ensures
        apply_all(a, evs, symbol) == apply_steps(a, steps, taker, side, symbol),
    decreases steps.len(),
{
    if steps.len() > 0 {
        assert(event_of(evs[0], steps[0], taker, side));
        let rest_e = evs.drop_first();
        let rest_s = steps.drop_first();
        assert forall|i: int| 0 <= i < rest_e.len() implies #[trigger] event_of(rest_e[i], rest_s[i], taker, side) by {
            assert(event_of(evs[i + 1], steps[i + 1], taker, side));
        }
        match settle_trade(a, taker, steps[0].maker.user_id@, side, steps[0].price as int, steps[0].qty as int, symbol) {
            Applied::Done(a1) => lemma_apply_events(a1, rest_e, rest_s, taker, side, symbol),
            _ => {},
        }
    }
}

/// What `user` holds of `currency`, available and locked together.
pub open spec fn holding(a: Accounts, user: Seq<char>, currency: Seq<char>) -> int {
    if a.contains_key(user) && a[user].contains_key(currency) {
        a[user][currency].available + a[user][currency].locked
    } else {
        0
    }
}

/// What `settle` changes of `currency` for its user: `p` for the primary
/// currency, plus `s` for the market's asset.
pub open spec fn settled_change(currency: Seq<char>, symbol: Seq<char>, p: int, s: int) -> int {
    (if currency == primary() { p } else { 0 }) + (if currency == symbol { s } else { 0 })
}

proof fn lemma_touch_holding(a: Accounts, user: Seq<char>, symbol: Seq<char>)
    ensures
        touch(a, user, symbol).contains_key(user),
        forall|u: Seq<char>| a.contains_key(u) ==> #[trigger] touch(a, user, symbol).contains_key(u),
        forall|u: Seq<char>, c: Seq<char>| #[trigger] holding(touch(a, user, symbol), u, c) == holding(a, u, c),
{
}

proof fn lemma_bump_holding(a: Accounts, user: Seq<char>, currency: Seq<char>, da: int, dl: int)
    requires
        a.contains_key(user),
    ensures
        bump(a, user, currency, da, dl) matches Applied::Done(a1) ==> {
            &&& forall|u: Seq<char>| #[trigger] a1.contains_key(u) == a.contains_key(u)
            &&& forall|u: Seq<char>, c: Seq<char>| #[trigger] holding(a1, u, c) == holding(a, u, c) + if u == user && c == currency {
                da + dl
            } else {
                0
            }
        },
{
}

proof fn lemma_settle_holding(a: Accounts, user: Seq<char>, symbol: Seq<char>, pa: int, pl: int, sa: int, sl: int)
    ensures
        settle(a, user, symbol, pa, pl, sa, sl) matches Applied::Done(a1) ==> {
            &&& a1.contains_key(user)
            &&& a1.dom() == a.dom().insert(user)
            &&& forall|u: Seq<char>| a.contains_key(u) ==> #[trigger] a1.contains_key(u)
            &&& forall|u: Seq<char>, c: Seq<char>| #[trigger] holding(a1, u, c) == holding(a, u, c) + if u == user {
                settled_change(c, symbol, pa + pl, sa + sl)
            } else {
                0
            }
        },
{
    let a0 = touch(a, user, symbol);
    lemma_touch_holding(a, user, symbol);
    lemma_bump_holding(a0, user, primary(), pa, pl);
    if let Applied::Done(a2) = bump(a0, user, primary(), pa, pl) {
        lemma_bump_holding(a2, user, symbol, sa, sl);
        assert(a0.dom() =~= a.dom().insert(user));
        assert(a2.dom() =~= a0.dom());
        if let Applied::Done(a3) = bump(a2, user, symbol, sa, sl) {
            assert(a3.dom() =~= a2.dom());
        }
    }
}

/// Law: settling a trade keeps every currency's total: what the taker and
/// the maker hold of each currency adds up to what they held before (for a
/// trade with oneself, what that user holds is unchanged), and nobody else's
/// holdings change.
pub proof fn law_trade_conserves(a: Accounts, taker: Seq<char>, maker: Seq<char>, side: OrderSide, price: int, qty: int, symbol: Seq<char>)
    ensures
        settle_trade(a, taker, maker, side, price, qty, symbol) matches Applied::Done(a1) ==> {
            &&& forall|c: Seq<char>| taker != maker ==> #[trigger] holding(a1, taker, c) + holding(a1, maker, c) == holding(a, taker, c) + holding(a, maker, c)
            &&& forall|c: Seq<char>| taker == maker ==> #[trigger] holding(a1, taker, c) == holding(a, taker, c)
            &&& forall|u: Seq<char>, c: Seq<char>| u != taker && u != maker ==> #[trigger] holding(a1, u, c) == holding(a, u, c)
        },
{
    let cost = qty * price;
    if fits(cost) {
        match side {
            OrderSide::Buy => {
                lemma_settle_holding(a, taker, symbol, -cost, 0, qty, 0);
                if let Applied::Done(a1) = settle(a, taker, symbol, -cost, 0, qty, 0) {
                    lemma_settle_holding(a1, maker, symbol, cost, 0, 0, -qty);
                }
            },
            OrderSide::Sell => {
                lemma_settle_holding(a, taker, symbol, cost, 0, -qty, 0);
                if let Applied::Done(a1) = settle(a, taker, symbol, cost, 0, -qty, 0) {
                    lemma_settle_holding(a1, maker, symbol, 0, -cost, qty, 0);
                }
            },
        }
    }
}

/// Law: settling one fill between two different users (a user without a
/// wallet starting from zero balances) moves the cost (`price * qty`) of the primary currency and `qty`
/// of the asset, and nothing else. A buying taker pays the cost from its
/// available primary balance and receives the asset as available; the
/// selling maker receives the cost as available and gives up the asset from
/// its locked balance. A selling taker is paid the cost as available and
/// gives up the asset from its available balance; the buying maker pays the
/// cost from its locked primary balance and receives the asset as
/// available.
pub proof fn law_fill_settles_both_sides(a: Accounts, f: FillEvent, symbol: Seq<char>)
    requires
        f.taker_user_id@ != f.maker_user_id@,
        symbol != primary(),
    ensures
        apply_all(a, seq![f], symbol) matches Applied::Done(a1) ==> {
            let t = f.taker_user_id@;
            let m = f.maker_user_id@;
            let cost = f.price * f.qty;
            let zero = Balance { available: 0, locked: 0 };
            let tp0 = if a.contains_key(t) { a[t][primary()] } else { zero };
            let ts0 = if a.contains_key(t) { a[t][symbol] } else { zero };
            let mp0 = if a.contains_key(m) { a[m][primary()] } else { zero };
            let ms0 = if a.contains_key(m) { a[m][symbol] } else { zero };
            let (tp1, ts1, mp1, ms1) = (a1[t][primary()], a1[t][symbol], a1[m][primary()], a1[m][symbol]);
            &&& tp1.locked == tp0.locked
            &&& ts1.locked == ts0.locked
            &&& match f.taker_side {
                OrderSide::Buy => {
                    &&& tp1.available == tp0.available - cost
                    &&& ts1.available == ts0.available + f.qty
                    &&& mp1.available == mp0.available + cost
                    &&& mp1.locked == mp0.locked
                    &&& ms1.available == ms0.available
                    &&& ms1.locked == ms0.locked - f.qty
                },
                OrderSide::Sell => {
                    &&& tp1.available == tp0.available + cost
                    &&& ts1.available == ts0.available - f.qty
                    &&& mp1.available == mp0.available
                    &&& mp1.locked == mp0.locked - cost
                    &&& ms1.available == ms0.available + f.qty
                    &&& ms1.locked == ms0.locked
                },
            }
        },
{
    let t = f.taker_user_id@;
    let m = f.maker_user_id@;
    let cost = f.qty * f.price;
    assert(f.price * f.qty == f.qty * f.price) by (nonlinear_arith);
    assert(seq![f][0] == f);
    assert(seq![f].drop_first() =~= Seq::<FillEvent>::empty());
    let (pa, sa, mpa, mpl, msa, msl) = match f.taker_side {
        OrderSide::Buy => (-cost, f.qty as int, cost, 0int, 0int, -f.qty),
        OrderSide::Sell => (cost, -f.qty, 0int, -cost, f.qty as int, 0int),
    };
    if let Applied::Done(x) = settle(a, t, symbol, pa, 0, sa, 0) {
        let a0 = touch(a, t, symbol);
        assert(a0[t][primary()] == if a.contains_key(t) { a[t][primary()] } else { Balance { available: 0, locked: 0 } });
        assert(a0[t][symbol] == if a.contains_key(t) { a[t][symbol] } else { Balance { available: 0, locked: 0 } });
        assert(a0.contains_key(m) == a.contains_key(m));
        assert(a.contains_key(m) ==> a0[m] == a[m]);
        let x1 = bump(a0, t, primary(), pa, 0)->Done_0;
        assert(x1[t][primary()].available == a0[t][primary()].available + pa);
        assert(x1[t][primary()].locked == a0[t][primary()].locked);
        assert(x1.contains_key(m) == a.contains_key(m));
        assert(a.contains_key(m) ==> x1[m] == a[m]);
        assert(x[t][primary()] == x1[t][primary()]);
        assert(x[t][symbol].available == a0[t][symbol].available + sa);
        assert(x[t][symbol].locked == a0[t][symbol].locked);
        assert(x.contains_key(m) == a.contains_key(m));
        assert(a.contains_key(m) ==> x[m] == a[m]);
        if let Applied::Done(y) = settle(x, m, symbol, mpa, mpl, msa, msl) {
            let x0 = touch(x, m, symbol);
            assert(x0[m][primary()] == if a.contains_key(m) { a[m][primary()] } else { Balance { available: 0, locked: 0 } });
            assert(x0[m][symbol] == if a.contains_key(m) { a[m][symbol] } else { Balance { available: 0, locked: 0 } });
            assert(x0[t] == x[t]);
            let y1 = bump(x0, m, primary(), mpa, mpl)->Done_0;
            assert(y1[m][primary()].available == x0[m][primary()].available + mpa);
            assert(y1[m][primary()].locked == x0[m][primary()].locked + mpl);
            assert(y[m][primary()] == y1[m][primary()]);
            assert(y[m][symbol].available == x0[m][symbol].available + msa);
            assert(y[m][symbol].locked == x0[m][symbol].locked + msl);
            assert(y[t] == x[t]);
            assert(apply_all(y, Seq::<FillEvent>::empty(), symbol) == Applied::Done(y));
        }
    }
}

/// What the `users` hold of `currency` altogether.
pub open spec fn held_by(a: Accounts, users: Set<Seq<char>>, currency: Seq<char>) -> int
    decreases users.len(),
    when users.finite()
{
    if users.len() == 0 {
        0
    } else {
        let u = users.choose();
        holding(a, u, currency) + held_by(a, users.remove(u), currency)
    }
}

/// What all users hold of `currency` altogether.
pub open spec fn total_held(a: Accounts, currency: Seq<char>) -> int {
    held_by(a, a.dom(), currency)
}

proof fn lemma_held_split(a: Accounts, users: Set<Seq<char>>, currency: Seq<char>, x: Seq<char>)
    requires
        users.finite(),
        users.contains(x),
    ensures
        held_by(a, users, currency) == holding(a, x, currency) + held_by(a, users.remove(x), currency),
    decreases users.len(),
{
    let u = users.choose();
    if u != x {
        lemma_held_split(a, users.remove(u), currency, x);
        lemma_held_split(a, users.remove(x), currency, u);
        assert(users.remove(u).remove(x) =~= users.remove(x).remove(u));
    }
}

pub proof fn lemma_held_same(a: Accounts, b: Accounts, users: Set<Seq<char>>, currency: Seq<char>)
    requires
        users.finite(),
        forall|u: Seq<char>| #[trigger] users.contains(u) ==> holding(a, u, currency) == holding(b, u, currency),
    ensures
        held_by(a, users, currency) == held_by(b, users, currency),
    decreases users.len(),
{
    if users.len() > 0 {
        let u = users.choose();
        lemma_held_same(a, b, users.remove(u), currency);
    }
}

proof fn lemma_held_absent(a: Accounts, users: Set<Seq<char>>, currency: Seq<char>, x: Seq<char>)
    requires
        users.finite(),
        !a.contains_key(x),
    ensures
        held_by(a, users.insert(x), currency) == held_by(a, users, currency),
{
    if !users.contains(x) {
        lemma_held_split(a, users.insert(x), currency, x);
        assert(users.insert(x).remove(x) =~= users);
    } else {
        assert(users.insert(x) =~= users);
    }
}

/// Law: settling a trade keeps what all users hold of each currency
/// altogether (a user it gives a fresh wallet holds nothing).
pub proof fn law_trade_keeps_totals(a: Accounts, taker: Seq<char>, maker: Seq<char>, side: OrderSide, price: int, qty: int, symbol: Seq<char>)
    requires
        a.dom().finite(),
    ensures
        settle_trade(a, taker, maker, side, price, qty, symbol) matches Applied::Done(a1) ==> {
            &&& a1.dom() == a.dom().insert(taker).insert(maker)
            &&& forall|c: Seq<char>| #[trigger] total_held(a1, c) == total_held(a, c)
        },
{
    law_trade_conserves(a, taker, maker, side, price, qty, symbol);
    let cost = qty * price;
    if fits(cost) {
        let (pa, pl, sa, sl, mpa, mpl, msa, msl) = match side {
            OrderSide::Buy => (-cost, 0, qty, 0, cost, 0, 0, -qty),
            OrderSide::Sell => (cost, 0, -qty, 0, 0, -cost, qty, 0),
        };
        lemma_settle_holding(a, taker, symbol, pa, pl, sa, sl);
        if let Applied::Done(a0) = settle(a, taker, symbol, pa, pl, sa, sl) {
            lemma_settle_holding(a0, maker, symbol, mpa, mpl, msa, msl);
        }
    }
    if let Applied::Done(a1) = settle_trade(a, taker, maker, side, price, qty, symbol) {
        let d = a.dom();
        let t = d.insert(taker).insert(maker);
        assert forall|c: Seq<char>| #[trigger] total_held(a1, c) == total_held(a, c) by {
            // The users outside the trade hold what they held.
            let rest = t.remove(taker).remove(maker);
            lemma_held_same(a1, a, rest, c);
            lemma_held_split(a1, t, c, taker);
            lemma_held_split(a, t, c, taker);
            if taker != maker {
                lemma_held_split(a1, t.remove(taker), c, maker);
                lemma_held_split(a, t.remove(taker), c, maker);
            } else {
                assert(t.remove(taker).remove(maker) =~= t.remove(taker));
            }
            // The trade's users that `a` did not hold hold nothing in `a`.
            if !a.contains_key(taker) {
                lemma_held_absent(a, d, c, taker);
            } else {
                assert(d.insert(taker) =~= d);
            }
            if !d.insert(taker).contains(maker) {
                lemma_held_absent(a, d.insert(taker), c, maker);
            } else {
                assert(t =~= d.insert(taker));
            }
        }
    }
}

/// Law: applying fill events, in order, keeps what all users hold of each
/// currency altogether.
pub proof fn law_fills_keep_totals(a: Accounts, fills: Seq<FillEvent>, symbol: Seq<char>)
    requires
        a.dom().finite(),
    ensures
        apply_all(a, fills, symbol) matches Applied::Done(a1) ==> forall|c: Seq<char>| #[trigger] total_held(a1, c) == total_held(a, c),
    decreases fills.len(),
{
    if fills.len() > 0 {
        let f = fills[0];
        law_trade_keeps_totals(a, f.taker_user_id@, f.maker_user_id@, f.taker_side, f.price as int, f.qty as int, symbol);
        if let Applied::Done(a1) = apply_fill(a, f, symbol) {
            law_fills_keep_totals(a1, fills.drop_first(), symbol);
        }
    }
}

/// Law: settling the trades of an incoming order, in order, keeps what all
/// users hold of each currency altogether.
pub proof fn law_steps_keep_totals(a: Accounts, steps: Seq<FillStep>, taker: Seq<char>, side: OrderSide, symbol: Seq<char>)
    requires
        a.dom().finite(),
    ensures
        apply_steps(a, steps, taker, side, symbol) matches Applied::Done(a1) ==> {
            &&& a1.dom().finite()
            &&& forall|c: Seq<char>| #[trigger] total_held(a1, c) == total_held(a, c)
        },
    decreases steps.len(),
{
    if steps.len() > 0 {
        let st = steps[0];
        law_trade_keeps_totals(a, taker, st.maker.user_id@, side, st.price as int, st.qty as int, symbol);
        if let Applied::Done(a1) = settle_trade(a, taker, st.maker.user_id@, side, st.price as int, st.qty as int, symbol) {
            law_steps_keep_totals(a1, steps.drop_first(), taker, side, symbol);
        }
    }
}

/// What the trades of `steps` cost altogether (`qty * price` each).
pub open spec fn total_cost(steps: Seq<FillStep>) -> int
    decreases steps.len(),
{
    if steps.len() == 0 {
        0
    } else {
        steps[0].qty * steps[0].price + total_cost(steps.drop_first())
    }
}

/// Law: when the incoming order of `taker` trades with no order of its own,
/// settling its trades changes only the available parts of the taker's
/// balances: a buyer pays the trades' total cost in the primary currency
/// and receives their total quantity of `symbol`; a seller is paid that cost
/// and gives up that quantity.
pub proof fn law_steps_taker_change(a: Accounts, steps: Seq<FillStep>, taker: Seq<char>, side: OrderSide, symbol: Seq<char>)
    requires
        a.contains_key(taker),
        symbol != primary(),
        forall|i: int| 0 <= i < steps.len() ==> #[trigger] steps[i].maker.user_id@ != taker,
    ensures
        apply_steps(a, steps, taker, side, symbol) matches Applied::Done(a1) ==> {
            let p0 = a[taker][primary()];
            let s0 = a[taker][symbol];
            let p1 = a1[taker][primary()];
            let s1 = a1[taker][symbol];
            &&& a1.contains_key(taker)
            &&& a1[taker].dom() == a[taker].dom()
            &&& p1.locked == p0.locked
            &&& s1.locked == s0.locked
            &&& match side {
                OrderSide::Buy => p1.available == p0.available - total_cost(steps) && s1.available == s0.available + total_qty(steps),
                OrderSide::Sell => p1.available == p0.available + total_cost(steps) && s1.available == s0.available - total_qty(steps),
            }
        },
    decreases steps.len(),
{
    if steps.len() > 0 {
        let st = steps[0];
        let maker = st.maker.user_id@;
        assert(maker != taker);
        let cost = st.qty * st.price;
        if let Applied::Done(a2) = settle_trade(a, taker, maker, side, st.price as int, st.qty as int, symbol) {
            let (pa, sa) = match side {
                OrderSide::Buy => (-cost, st.qty as int),
                OrderSide::Sell => (cost, -st.qty),
            };
            let a1 = settle(a, taker, symbol, pa, 0, sa, 0)->Done_0;
            assert(a1[taker].dom() =~= a[taker].dom());
            assert(a2[taker] == a1[taker]);
            let rest = steps.drop_first();
            assert forall|i: int| 0 <= i < rest.len() implies #[trigger] rest[i].maker.user_id@ != taker by {
                assert(rest[i] == steps[i + 1]);
            }
            law_steps_taker_change(a2, rest, taker, side, symbol);
        }
    }
}

/// `user` has balances in the primary currency and in `symbol`.
pub open spec fn has_wallet(a: Accounts, user: Seq<char>, symbol: Seq<char>) -> bool {
    &&& a.contains_key(user)
    &&& a[user].contains_key(primary())
    &&& a[user].contains_key(symbol)
}

/// `b` has the same users as `a`, each with the same currencies.
pub open spec fn same_shape(a: Accounts, b: Accounts) -> bool {
    &&& forall|u: Seq<char>| #[trigger] b.contains_key(u) == a.contains_key(u)
    &&& forall|u: Seq<char>, c: Seq<char>| a.contains_key(u) ==> #[trigger] b[u].contains_key(c) == a[u].contains_key(c)
}

proof fn lemma_settle_found(a: Accounts, user: Seq<char>, symbol: Seq<char>, pa: int, pl: int, sa: int, sl: int)
    requires
        has_wallet(a, user, symbol),
    ensures
        !(settle(a, user, symbol, pa, pl, sa, sl) is Missing),
        settle(a, user, symbol, pa, pl, sa, sl) matches Applied::Done(a1) ==> same_shape(a, a1),
{
    assert(touch(a, user, symbol) == a);
    if let Applied::Done(a2) = bump(a, user, primary(), pa, pl) {
        assert(same_shape(a, a2));
        assert(a2[user].contains_key(symbol));
        if let Applied::Done(a3) = bump(a2, user, symbol, sa, sl) {
            assert(same_shape(a2, a3));
        }
    }
}

/// Law: when the taker and every maker of the trades have balances in the
/// primary currency and in `symbol`, settling the trades finds every
/// balance it needs, and leaves the same users with the same currencies.
pub proof fn law_trades_find_balances(a: Accounts, steps: Seq<FillStep>, taker: Seq<char>, side: OrderSide, symbol: Seq<char>)
    requires
        has_wallet(a, taker, symbol),
        forall|i: int| 0 <= i < steps.len() ==> has_wallet(a, #[trigger] steps[i].maker.user_id@, symbol),
    ensures
        !(apply_steps(a, steps, taker, side, symbol) is Missing),
        apply_steps(a, steps, taker, side, symbol) matches Applied::Done(a1) ==> same_shape(a, a1),
    decreases steps.len(),
{
    if steps.len() > 0 {
        let st = steps[0];
        let maker = st.maker.user_id@;
        assert(has_wallet(a, maker, symbol));
        let cost = st.qty * st.price;
        if fits(cost) {
            let (pa, pl, sa, sl, mpa, mpl, msa, msl) = match side {
                OrderSide::Buy => (-cost, 0, st.qty as int, 0, cost, 0, 0, -st.qty),
                OrderSide::Sell => (cost, 0, -st.qty, 0, 0, -cost, st.qty as int, 0),
            };
            lemma_settle_found(a, taker, symbol, pa, pl, sa, sl);
            if let Applied::Done(a1) = settle(a, taker, symbol, pa, pl, sa, sl) {
                assert(has_wallet(a1, maker, symbol));
                lemma_settle_found(a1, maker, symbol, mpa, mpl, msa, msl);
                if let Applied::Done(a2) = settle(a1, maker, symbol, mpa, mpl, msa, msl) {
                    assert(same_shape(a, a2));
                    let rest = steps.drop_first();
                    assert forall|i: int| 0 <= i < rest.len() implies has_wallet(a2, #[trigger] rest[i].maker.user_id@, symbol) by {
                        assert(rest[i] == steps[i + 1]);
                        assert(has_wallet(a, steps[i + 1].maker.user_id@, symbol));
                    }
                    law_trades_find_balances(a2, rest, taker, side, symbol);
                    if let Applied::Done(a3) = apply_steps(a2, rest, taker, side, symbol) {
                        assert(same_shape(a, a3));
                    }
                }
            }
        }
    }
}

/// The change that a (`locked`, `add`, `amount`) shift makes to the locked
/// part (`of_locked`) or to the available part of a balance.
pub open spec fn delta(locked: bool, add: bool, amount: i64, of_locked: bool) -> int {
    if locked == of_locked {
        if add {
            amount as int
        } else {
            -amount
        }
    } else {
        0
    }
}

/// The contents of a wallet table.
pub open spec fn wallets_view(t: Table<Table<Balance>>) -> Accounts {
    Map::new(|u: Seq<char>| t@.contains_key(u), |u: Seq<char>| t@[u]@)
}

impl View for Balances {
    type V = Accounts;

    open spec fn view(&self) -> Accounts {
        wallets_view(self.accounts)
    }
}

impl Balances {
    /// Every table is well formed.
    pub open spec fn wf(&self) -> bool {
        &&& self.accounts.wf()
        &&& forall|u: Seq<char>| #[trigger] self.accounts@.contains_key(u) ==> self.accounts@[u].wf()
    }

    /// `user_id`'s wallet, to be changed in place; a user without one is
    /// first given a fresh wallet (zero primary and `symbol` balances).
    fn get_balance_mut(&mut self, user_id: &str, symbol: &str) -> (w: &mut Table<Balance>)
        requires
            old(self).wf(),
        ensures
            w.wf(),
            w@ == touch(old(self)@, user_id@, symbol@)[user_id@],
            final(self).accounts.wf(),
            final(self)@ == old(self)@.insert(user_id@, final(w)@),
            final(w).wf() ==> final(self).wf(),
    {
        let mut fresh = Table::new();
        fresh.insert(PRIMARY_CURRENCY.to_owned(), Balance { available: 0, locked: 0 });
        fresh.insert(symbol.to_owned(), Balance { available: 0, locked: 0 });
        proof {
            reveal_strlit("INR");
            assert(PRIMARY_CURRENCY@ == primary());
            assert(fresh@ =~= fresh_wallet(symbol@));
        }
        self.accounts.get_mut_or_insert(user_id, fresh)
    }

    /// Applies `fills` of market `symbol` to the balances, in order. A user
    /// that a fill touches and that has no balances yet is given zero
    /// balances in the primary currency and in `symbol`. The first fill that
    /// finds a currency missing from a user's balances stops the work with
    /// `BalanceNotFound`; the changes made before it stay.
    pub fn apply_fills(&mut self, fills: &[FillEvent], symbol: &str) -> (r: Result<(), Error>)
        requires
            old(self).wf(),
            !(apply_all(old(self)@, fills@, symbol@) is Overflow),
        ensures
            final(self).wf(),
            match apply_all(old(self)@, fills@, symbol@) {
                Applied::Done(a) => r == Ok::<(), Error>(()) && final(self)@ == a,
                Applied::Missing(a) => r == Err::<(), Error>(Error::BalanceNotFound) && final(self)@ == a,
                Applied::Overflow => false,
            },
    {
        match self.apply_fills_checked(fills, symbol) {
            Outcome::Done => Ok(()),
            _ => Err(Error::BalanceNotFound),
        }
    }
}

/// What applying balance changes gave, when only its kind is kept.
#[derive(Debug, Clone, Copy, PartialEq, Eq, Structural)]
pub enum Outcome {
    Done,
    Missing,
    Overflow,
}

pub open spec fn outcome_of(a: Applied) -> Outcome {
    match a {
        Applied::Done(_) => Outcome::Done,
        Applied::Missing(_) => Outcome::Missing,
        Applied::Overflow => Outcome::Overflow,
    }
}

/// Changes the `currency` balance of `wallet`: its locked part if `locked`,
/// else its available part, up by `amount` if `add`, else down. Gives
/// `Some(false)`, changing nothing, if the wallet holds no `currency`, and
/// `None`, changing nothing, if the new balance would not fit an `i64`.
fn shift(wallet: &mut Table<Balance>, currency: &str, locked: bool, add: bool, amount: i64) -> (r: Option<bool>)
    requires
        old(wallet).wf(),
    ensures
        final(wallet).wf(),
        ({
            let found = old(wallet)@.contains_key(currency@);
            let b = old(wallet)@[currency@];
            let v = if locked { b.locked } else { b.available };
            let nv = if add { v + amount } else { v - amount };
            if !found {
                r == Some(false) && final(wallet)@ == old(wallet)@
            } else if !fits(nv) {
                r is None && final(wallet)@ == old(wallet)@
            } else {
                r == Some(true) && final(wallet)@ == old(wallet)@.insert(
                    currency@,
                    if locked {
                        Balance { available: b.available, locked: nv as i64 }
                    } else {
                        Balance { available: nv as i64, locked: b.locked }
                    },
                )
            }
        }),
{
    match wallet.get_mut(currency) {
        None => Some(false),
        Some(b) => {
            let v = if locked { b.locked } else { b.available };
            let nv = if add { v.checked_add(amount) } else { v.checked_sub(amount) };
            match nv {
                None => None,
                Some(x) => {
                    if locked {
                        b.locked = x;
                    } else {
                        b.available = x;
                    }
                    Some(true)
                },
            }
        },
    }
}

impl Balances {
    /// Balances with the same contents.
    pub fn copy(&self) -> (c: Balances)
        requires
            self.wf(),
        ensures
            c.wf(),
            c@ == self@,
    {
        let users = self.accounts.keys();
        let mut accounts: Table<Table<Balance>> = Table::new();
        let n = users.len();
        let mut i: usize = 0;
        while i < n
            invariant
                self.wf(),
                n == users@.len(),
                i <= n,
                forall|j: int| 0 <= j < users@.len() ==> self.accounts@.contains_key(#[trigger] users@[j]@),
                accounts.wf(),
                forall|u: Seq<char>| #[trigger] accounts@.contains_key(u) ==> accounts@[u].wf(),
                forall|u: Seq<char>| #[trigger] accounts@.contains_key(u) <==> exists|j: int| 0 <= j < i && users@[j]@ == u,
                forall|u: Seq<char>| #[trigger] accounts@.contains_key(u) ==> accounts@[u]@ == self@[u],
            decreases n - i,
        {
            let u = &users[i];
            let w = self.accounts.get(u).unwrap();
            let wc = w.copy();
            let ghost before = accounts@;
            accounts.insert(u.clone(), wc);
            proof {
                assert forall|v: Seq<char>| #[trigger] accounts@.contains_key(v) <==> exists|j: int| 0 <= j < i + 1 && users@[j]@ == v by {
                    if accounts@.contains_key(v) && v != u@ {
                        assert(before.contains_key(v));
                    }
                    if exists|j: int| 0 <= j < i + 1 && users@[j]@ == v {
                        let j = choose|j: int| 0 <= j < i + 1 && users@[j]@ == v;
                        if j < i {
                            assert(before.contains_key(v));
                        }
                    }
                }
            }
            i = i + 1;
        }
        let c = Balances { accounts };
        proof {
            assert forall|u: Seq<char>| #[trigger] c@.contains_key(u) <==> self@.contains_key(u) by {
                if self@.contains_key(u) {
                    assert(self.accounts@.contains_key(u));
                    let j = choose|j: int| 0 <= j < users@.len() && users@[j]@ == u;
                    assert(c.accounts@.contains_key(u));
                }
            }
            assert(c@ =~= self@);
        }
        c
    }

    /// Changes `user_id`'s primary balance and then its `symbol` balance, as
    /// `settle` describes, and reports whether that was done, stopped by a
    /// missing currency, or stopped by a balance that would not fit an `i64`.
    fn settle_user_checked(
        &mut self,
        user_id: &str,
        symbol: &str,
        p_locked: bool,
        p_add: bool,
        p_amount: i64,
        s_locked: bool,
        s_add: bool,
        s_amount: i64,
    ) -> (r: Outcome)
        requires
            old(self).wf(),
        ensures
            final(self).wf(),
            ({
                let spec = settle(
                    old(self)@,
                    user_id@,
                    symbol@,
                    delta(p_locked, p_add, p_amount, false),
                    delta(p_locked, p_add, p_amount, true),
                    delta(s_locked, s_add, s_amount, false),
                    delta(s_locked, s_add, s_amount, true),
                );
                &&& r == outcome_of(spec)
                &&& spec matches Applied::Done(a) ==> final(self)@ == a
                &&& spec matches Applied::Missing(a) ==> final(self)@ == a
            }),
    {
        let ghost a1 = touch(self@, user_id@, symbol@);
        let w = self.get_balance_mut(user_id, symbol);
        proof {
            reveal_strlit("INR");
            assert(PRIMARY_CURRENCY@ == primary());
            assert(old(self)@.insert(user_id@, w@) =~= a1);
        }
        let ghost w0 = w@;
        let r1 = shift(w, PRIMARY_CURRENCY, p_locked, p_add, p_amount);
        let ghost w1 = w@;
        let r = match r1 {
            None => Outcome::Overflow,
            Some(false) => Outcome::Missing,
            Some(true) => match shift(w, symbol, s_locked, s_add, s_amount) {
                None => Outcome::Overflow,
                Some(false) => Outcome::Missing,
                Some(true) => Outcome::Done,
            },
        };
        proof {
            let a2 = a1.insert(user_id@, w1);
            assert(a1.insert(user_id@, w0) =~= a1);
            assert(old(self)@.insert(user_id@, w1) =~= a2);
            assert(a2.insert(user_id@, w@) =~= old(self)@.insert(user_id@, w@));
        }
        r
    }

    /// Whether `apply_fills` can apply `fills` of market `symbol`: whether no
    /// balance that it changes would leave the `i64` range.
    pub fn fills_fit(&self, fills: &[FillEvent], symbol: &str) -> (b: bool)
        requires
            self.wf(),
        ensures
            b == !(apply_all(self@, fills@, symbol@) is Overflow),
    {
        let mut trial = self.copy();
        trial.apply_fills_checked(fills, symbol) != Outcome::Overflow
    }

    /// Applies `fills` of market `symbol` to the balances, in order, and
    /// reports whether all were applied, or the first that could not be was
    /// stopped by a missing currency or by a balance that would not fit an
    /// `i64`. The changes made before it stay.
    pub fn apply_fills_checked(&mut self, fills: &[FillEvent], symbol: &str) -> (r: Outcome)
        requires
            old(self).wf(),
        ensures
            final(self).wf(),
            r == outcome_of(apply_all(old(self)@, fills@, symbol@)),
            apply_all(old(self)@, fills@, symbol@) matches Applied::Done(a) ==> final(self)@ == a,
            apply_all(old(self)@, fills@, symbol@) matches Applied::Missing(a) ==> final(self)@ == a,
    {
        let n = fills.len();
        let mut i: usize = 0;
        proof {
            assert(fills@.subrange(0, n as int) =~= fills@);
        }
        while i < n
            invariant
                self.wf(),
                n == fills@.len(),
                i <= n,
                apply_all(old(self)@, fills@, symbol@) == apply_all(self@, fills@.subrange(i as int, n as int), symbol@),
            decreases n - i,
        {
            let fill = &fills[i];
            let ghost rest = fills@.subrange(i as int, n as int);
            proof {
                assert(rest[0] == fills@[i as int]);
                assert(rest.drop_first() =~= fills@.subrange(i + 1, n as int));
            }
            let price_for_filled_qty = match fill.qty.checked_mul(fill.price) {
                Some(c) => c,
                None => {
                    return Outcome::Overflow;
                },
            };
            let r = match fill.taker_side {
                OrderSide::Buy => match self.settle_user_checked(&fill.taker_user_id, symbol, false, false, price_for_filled_qty, false, true, fill.qty) {
                    Outcome::Done => self.settle_user_checked(&fill.maker_user_id, symbol, false, true, price_for_filled_qty, true, false, fill.qty),
                    other => other,
                },
                OrderSide::Sell => match self.settle_user_checked(&fill.taker_user_id, symbol, false, true, price_for_filled_qty, false, false, fill.qty) {
                    Outcome::Done => self.settle_user_checked(&fill.maker_user_id, symbol, true, false, price_for_filled_qty, false, true, fill.qty),
                    other => other,
                },
            };
            if r != Outcome::Done {
                return r;
            }
            i = i + 1;
        }
        proof {
            assert(fills@.subrange(n as int, n as int).len() == 0);
        }
        Outcome::Done
    }
}

} // verus!
