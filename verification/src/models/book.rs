//! Price-time priority matching of an incoming limit order against a book.
//!
//! A buy order takes from the asks, lowest price first; a sell order takes
//! from the bids, highest price first; within a price level, the oldest
//! order first. The spec functions below describe the whole walk: which
//! fills it makes, what the book side looks like afterwards and how much of
//! the incoming order is left.
use std::collections::BTreeMap;
use std::collections::VecDeque;
use std::ops::Bound;

use vstd::prelude::*;

use crate::models::store::{FillEvent, MatchResult, OrderBook, OrderSide, OrderStatus, RestingOrder};
use crate::stamps::new_id;

verus! {

/// A book side as price levels, each level its orders in time order.
pub open spec fn levels(m: BTreeMap<i64, VecDeque<RestingOrder>>) -> Map<i64, Seq<RestingOrder>> {
    Map::new(|k: i64| m@.contains_key(k), |k: i64| m@[k]@)
}

/// A resting order has something left to fill and has not been overfilled.
pub open spec fn valid_order(o: RestingOrder) -> bool {
    0 <= o.filled_qty < o.qty
}

/// Every order of every level is valid.
pub open spec fn valid_levels(l: Map<i64, Seq<RestingOrder>>) -> bool {
    forall|k: i64, i: int| #![trigger l[k][i]]
        l.contains_key(k) && 0 <= i < l[k].len() ==> valid_order(l[k][i])
}

/// What is left to fill of a resting order.
pub open spec fn open_qty(o: RestingOrder) -> int {
    o.qty - o.filled_qty
}

/// One trade made while matching: the level's price, the resting order as it
/// was before the trade, the quantity traded, and whether the resting order
/// was filled completely.
pub struct FillStep {
    pub price: i64,
    pub maker: RestingOrder,
    pub qty: i64,
    pub full: bool,
}

/// Matching `rem` against the orders of one level at `price`, oldest first:
/// the trades, the level afterwards and what is left of `rem`.
pub open spec fn fill_level(q: Seq<RestingOrder>, price: i64, rem: int) -> (Seq<FillStep>, Seq<RestingOrder>, int)
    decreases q.len(),
{
    if rem <= 0 || q.len() == 0 {
        (Seq::empty(), q, rem)
    } else {
        let o = q[0];
        let avail = open_qty(o);
        let f = if avail < rem { avail } else { rem };
        if f == avail {
            let step = FillStep { price, maker: o, qty: f as i64, full: true };
            let (fs, q2, r2) = fill_level(q.drop_first(), price, rem - f);
            (seq![step] + fs, q2, r2)
        } else {
            let step = FillStep { price, maker: o, qty: f as i64, full: false };
            let o2 = RestingOrder { filled_qty: (o.filled_qty + f) as i64, ..o };
            (seq![step], q.update(0, o2), rem - f)
        }
    }
}

/// `k` is the best price of the levels for an incoming order of side `side`:
/// the lowest ask for a buy, the highest bid for a sell.
pub open spec fn is_best(l: Map<i64, Seq<RestingOrder>>, side: OrderSide, k: i64) -> bool {
    &&& l.contains_key(k)
    &&& forall|j: i64| #[trigger] l.contains_key(j) ==> match side {
        OrderSide::Buy => k <= j,
        OrderSide::Sell => j <= k,
    }
}

pub open spec fn best_key(l: Map<i64, Seq<RestingOrder>>, side: OrderSide) -> i64 {
    choose|k: i64| is_best(l, side, k)
}

/// Whether a resting price `best` is acceptable to an incoming order of
/// side `side` with limit `price`.
pub open spec fn crosses(side: OrderSide, best: i64, price: i64) -> bool {
    match side {
        OrderSide::Buy => best <= price,
        OrderSide::Sell => best >= price,
    }
}

/// Matching `rem` at limit `price` against the levels `l` of the opposite
/// side: the trades in order, the levels afterwards, and what is left.
pub open spec fn match_side(l: Map<i64, Seq<RestingOrder>>, side: OrderSide, price: i64, rem: int) -> (Seq<FillStep>, Map<i64, Seq<RestingOrder>>, int)
    decreases l.dom().len(),
    when l.dom().finite()
{
    if l.dom().len() == 0 || rem <= 0 {
        (Seq::empty(), l, rem)
    } else {
        let best = best_key(l, side);
        if !crosses(side, best, price) {
            (Seq::empty(), l, rem)
        } else {
            let (fs, q2, r2) = fill_level(l[best], best, rem);
            if q2.len() == 0 {
                proof {
                    lemma_best_exists(l, side);
                }
                let (fs2, l2, r3) = match_side(l.remove(best), side, price, r2);
                (fs + fs2, l2, r3)
            } else {
                (fs, l.insert(best, q2), r2)
            }
        }
    }
}

/// The status of an order of `qty` of which `filled` has been filled.
pub open spec fn status_for(qty: int, filled: int) -> OrderStatus {
    if filled == 0 {
        OrderStatus::Open
    } else if qty > filled {
        OrderStatus::PartialFilled
    } else {
        OrderStatus::Filled
    }
}

/// Law: an order is open while nothing of it is filled, partly filled while
/// something but not all of it is, and filled once all of it is.
pub proof fn law_status_follows_filled(qty: int, filled: int)
    requires
        0 <= filled <= qty,
    ensures
        filled == 0 ==> status_for(qty, filled) == OrderStatus::Open,
        0 < filled < qty ==> status_for(qty, filled) == OrderStatus::PartialFilled,
        0 < filled == qty ==> status_for(qty, filled) == OrderStatus::Filled,
        status_for(qty, filled) == OrderStatus::Filled <==> 0 < filled == qty,
{
}

/// A fill event records the trade `step` of the incoming order of `user`.
pub open spec fn event_of(ev: FillEvent, step: FillStep, user: Seq<char>, side: OrderSide) -> bool {
    &&& ev.price == step.price
    &&& ev.qty == step.qty
    &&& ev.maker_user_id@ == step.maker.user_id@
    &&& ev.maker_order_id@ == step.maker.order_id@
    &&& ev.taker_user_id@ == user
    &&& ev.taker_side == side
    &&& ev.is_maker_fully_filled == step.full
    &&& ev.maker_total_qty == step.maker.qty
}

pub open spec fn events_of(evs: Seq<FillEvent>, steps: Seq<FillStep>, user: Seq<char>, side: OrderSide) -> bool {
    &&& evs.len() == steps.len()
    &&& forall|i: int| 0 <= i < evs.len() ==> #[trigger] event_of(evs[i], steps[i], user, side)
}

proof fn lemma_set_extreme(s: Set<i64>, lowest: bool)
    requires
        s.finite(),
        s.len() > 0,
    ensures
        exists|k: i64| s.contains(k) && forall|j: i64| #[trigger] s.contains(j) ==> if lowest { k <= j } else { j <= k },
    decreases s.len(),
{
    let x = s.choose();
    let rest = s.remove(x);
    if rest.len() == 0 {
        assert forall|j: i64| #[trigger] s.contains(j) implies j == x by {
            if j != x {
                assert(rest.contains(j));
            }
        }
        assert(s.contains(x));
    } else {
        lemma_set_extreme(rest, lowest);
        let m = choose|k: i64| rest.contains(k) && forall|j: i64| #[trigger] rest.contains(j) ==> if lowest { k <= j } else { j <= k };
        let better = if lowest { x < m } else { m < x };
        if better {
            assert forall|j: i64| #[trigger] s.contains(j) implies (if lowest { x <= j } else { j <= x }) by {
                if j != x {
                    assert(rest.contains(j));
                }
            }
            assert(s.contains(x));
        } else {
            assert forall|j: i64| #[trigger] s.contains(j) implies (if lowest { m <= j } else { j <= m }) by {
                if j != x {
                    assert(rest.contains(j));
                }
            }
            assert(s.contains(m));
        }
    }
}

/// The quantity traded by `steps` altogether.
pub open spec fn total_qty(steps: Seq<FillStep>) -> int
    decreases steps.len(),
{
    if steps.len() == 0 {
        0
    } else {
        steps[0].qty + total_qty(steps.drop_first())
    }
}

pub proof fn lemma_total_concat(a: Seq<FillStep>, b: Seq<FillStep>)
    ensures
        total_qty(a + b) == total_qty(a) + total_qty(b),
    decreases a.len(),
{
    if a.len() == 0 {
        assert(a + b =~= b);
    } else {
        assert((a + b).drop_first() =~= a.drop_first() + b);
        lemma_total_concat(a.drop_first(), b);
    }
}

/// On valid orders, every trade of a level is of a positive quantity, and
/// they add up to what the level took from the incoming quantity.
pub proof fn lemma_fill_level_total(q: Seq<RestingOrder>, price: i64, rem: int)
    requires
        forall|i: int| 0 <= i < q.len() ==> valid_order(#[trigger] q[i]),
    ensures
        total_qty(fill_level(q, price, rem).0) == rem - fill_level(q, price, rem).2,
        forall|i: int| 0 <= i < fill_level(q, price, rem).0.len() ==> (#[trigger] fill_level(q, price, rem).0[i]).qty > 0,
        fill_level(q, price, rem).0.len() > 0 ==> fill_level(q, price, rem).2 < rem,
        rem >= 0 ==> fill_level(q, price, rem).2 >= 0,
    decreases q.len(),
{
    if rem <= 0 || q.len() == 0 {
    } else {
        let o = q[0];
        assert(valid_order(q[0]));
        let avail = open_qty(o);
        let f = if avail < rem { avail } else { rem };
        let step = FillStep { price, maker: o, qty: f as i64, full: f == avail };
        assert(0 < f <= i64::MAX);
        assert(step.qty == f);
        if f == avail {
            let rest = q.drop_first();
            assert forall|i: int| 0 <= i < rest.len() implies valid_order(#[trigger] rest[i]) by {
                assert(rest[i] == q[i + 1]);
            }
            lemma_fill_level_total(rest, price, rem - f);
            let fs = fill_level(rest, price, rem - f).0;
            assert((seq![step] + fs).drop_first() =~= fs);
            assert forall|i: int| 0 <= i < (seq![step] + fs).len() implies (#[trigger] (seq![step] + fs)[i]).qty > 0 by {
                if i > 0 {
                    assert((seq![step] + fs)[i] == fs[i - 1]);
                }
            }
            assert(total_qty(seq![step] + fs) == f + total_qty(fs));
        } else {
            assert(seq![step].drop_first() =~= Seq::<FillStep>::empty());
            assert(total_qty(seq![step]) == f + total_qty(Seq::<FillStep>::empty()));
        }
    }
}

/// On valid levels, every trade of a match is of a positive quantity, and
/// they add up to what was taken from the incoming quantity.
pub proof fn lemma_match_side_total(l: Map<i64, Seq<RestingOrder>>, side: OrderSide, price: i64, rem: int)
    requires
        l.dom().finite(),
        valid_levels(l),
    ensures
        total_qty(match_side(l, side, price, rem).0) == rem - match_side(l, side, price, rem).2,
        forall|i: int| 0 <= i < match_side(l, side, price, rem).0.len() ==> (#[trigger] match_side(l, side, price, rem).0[i]).qty > 0,
        match_side(l, side, price, rem).0.len() > 0 ==> match_side(l, side, price, rem).2 < rem,
        rem >= 0 ==> match_side(l, side, price, rem).2 >= 0,
    decreases l.dom().len(),
{
    if l.dom().len() == 0 || rem <= 0 {
    } else {
        let best = best_key(l, side);
        if crosses(side, best, price) {
            lemma_best_exists(l, side);
            let q = l[best];
            assert forall|i: int| 0 <= i < q.len() implies valid_order(#[trigger] q[i]) by {
                assert(valid_order(l[best][i]));
            }
            lemma_fill_level_total(q, best, rem);
            let (fs, q2, r2) = fill_level(q, best, rem);
            if q2.len() == 0 {
                let l2 = l.remove(best);
                assert(valid_levels(l2)) by {
                    assert forall|k: i64, i: int| l2.contains_key(k) && 0 <= i < l2[k].len() implies valid_order(#[trigger] l2[k][i]) by {
                        assert(valid_order(l[k][i]));
                    }
                }
                lemma_match_side_total(l2, side, price, r2);
                let (fs2, _, r3) = match_side(l2, side, price, r2);
                lemma_total_concat(fs, fs2);
                assert forall|i: int| 0 <= i < (fs + fs2).len() implies (#[trigger] (fs + fs2)[i]).qty > 0 by {
                    if i < fs.len() {
                        assert((fs + fs2)[i] == fs[i]);
                    } else {
                        assert((fs + fs2)[i] == fs2[i - fs.len()]);
                    }
                }
            }
        }
    }
}

/// Every trade of a level is at the level's price, with one of the level's
/// orders as it was before the trade.
proof fn lemma_fill_level_steps(q: Seq<RestingOrder>, price: i64, rem: int)
    ensures
        forall|i: int| #![trigger fill_level(q, price, rem).0[i]]
            0 <= i < fill_level(q, price, rem).0.len() ==> {
                &&& fill_level(q, price, rem).0[i].price == price
                &&& exists|j: int| 0 <= j < q.len() && q[j] == fill_level(q, price, rem).0[i].maker
            },
    decreases q.len(),
{
    if rem <= 0 || q.len() == 0 {
    } else {
        let o = q[0];
        let avail = open_qty(o);
        let f = if avail < rem { avail } else { rem };
        let step = FillStep { price, maker: o, qty: f as i64, full: f == avail };
        if f == avail {
            let rest = q.drop_first();
            lemma_fill_level_steps(rest, price, rem - f);
            let fs = fill_level(rest, price, rem - f).0;
            assert forall|i: int| #![trigger (seq![step] + fs)[i]] 0 <= i < (seq![step] + fs).len() implies {
                &&& (seq![step] + fs)[i].price == price
                &&& exists|j: int| 0 <= j < q.len() && q[j] == (seq![step] + fs)[i].maker
            } by {
                if i == 0 {
                    assert(q[0] == (seq![step] + fs)[i].maker);
                } else {
                    assert((seq![step] + fs)[i] == fs[i - 1]);
                    let j = choose|j: int| 0 <= j < rest.len() && rest[j] == fs[i - 1].maker;
                    assert(q[j + 1] == rest[j]);
                }
            }
        } else {
            assert(q[0] == seq![step][0].maker);
        }
    }
}

/// Every trade of a match is at one of the levels' prices, with one of the
/// orders of that level as it was before the trade.
pub proof fn lemma_match_side_steps(l: Map<i64, Seq<RestingOrder>>, side: OrderSide, price: i64, rem: int)
    requires
        l.dom().finite(),
    ensures
        forall|i: int| #![trigger match_side(l, side, price, rem).0[i]]
            0 <= i < match_side(l, side, price, rem).0.len() ==> {
                let st = match_side(l, side, price, rem).0[i];
                &&& l.contains_key(st.price)
                &&& crosses(side, st.price, price)
                &&& exists|j: int| 0 <= j < l[st.price].len() && l[st.price][j] == st.maker
            },
    decreases l.dom().len(),
{
    if l.dom().len() == 0 || rem <= 0 {
    } else {
        let best = best_key(l, side);
        if crosses(side, best, price) {
            lemma_best_exists(l, side);
            lemma_fill_level_steps(l[best], best, rem);
            let (fs, q2, r2) = fill_level(l[best], best, rem);
            if q2.len() == 0 {
                let l2 = l.remove(best);
                lemma_match_side_steps(l2, side, price, r2);
                let fs2 = match_side(l2, side, price, r2).0;
                assert forall|i: int| #![trigger (fs + fs2)[i]] 0 <= i < (fs + fs2).len() implies {
                    let st = (fs + fs2)[i];
                    &&& l.contains_key(st.price)
                    &&& crosses(side, st.price, price)
                        &&& exists|j: int| 0 <= j < l[st.price].len() && l[st.price][j] == st.maker
                } by {
                    if i < fs.len() {
                        assert((fs + fs2)[i] == fs[i]);
                    } else {
                        assert((fs + fs2)[i] == fs2[i - fs.len()]);
                        let st = fs2[i - fs.len()];
                        assert(l2.contains_key(st.price));
                        assert(st.price != best);
                        assert(l.contains_key(best));
                    }
                }
            } else {
                assert forall|i: int| #![trigger fs[i]] 0 <= i < fs.len() implies {
                    let st = fs[i];
                    &&& l.contains_key(st.price)
                    &&& crosses(side, st.price, price)
                        &&& exists|j: int| 0 <= j < l[st.price].len() && l[st.price][j] == st.maker
                } by {
                    assert(fs[i].price == best);
                }
            }
        }
    }
}

/// Law: every trade of a match is at a price that the incoming order's
/// limit accepts, and the trades come best price first: for a buy, each
/// trade's price is at most the next one's; for a sell, at least.
pub proof fn law_fills_in_price_priority(l: Map<i64, Seq<RestingOrder>>, side: OrderSide, price: i64, rem: int)
    requires
        l.dom().finite(),
    ensures
        forall|i: int| 0 <= i < match_side(l, side, price, rem).0.len() ==> match side {
            OrderSide::Buy => #[trigger] match_side(l, side, price, rem).0[i].price <= price,
            OrderSide::Sell => match_side(l, side, price, rem).0[i].price >= price,
        },
        forall|i: int, j: int| 0 <= i < j < match_side(l, side, price, rem).0.len() ==> match side {
            OrderSide::Buy => #[trigger] match_side(l, side, price, rem).0[i].price <= #[trigger] match_side(l, side, price, rem).0[j].price,
            OrderSide::Sell => match_side(l, side, price, rem).0[i].price >= match_side(l, side, price, rem).0[j].price,
        },
    decreases l.dom().len(),
{
    lemma_match_side_steps(l, side, price, rem);
    if l.dom().len() == 0 || rem <= 0 {
    } else {
        let best = best_key(l, side);
        if crosses(side, best, price) {
            lemma_best_exists(l, side);
            lemma_fill_level_steps(l[best], best, rem);
            let (fs, q2, r2) = fill_level(l[best], best, rem);
            if q2.len() == 0 {
                let l2 = l.remove(best);
                law_fills_in_price_priority(l2, side, price, r2);
                lemma_match_side_steps(l2, side, price, r2);
                let fs2 = match_side(l2, side, price, r2).0;
                let all = fs + fs2;
                assert forall|i: int, j: int| 0 <= i < j < all.len() implies match side {
                    OrderSide::Buy => #[trigger] all[i].price <= #[trigger] all[j].price,
                    OrderSide::Sell => all[i].price >= all[j].price,
                } by {
                    if j < fs.len() {
                        assert(all[i] == fs[i] && all[j] == fs[j]);
                    } else if i < fs.len() {
                        assert(all[i] == fs[i]);
                        assert(all[j] == fs2[j - fs.len()]);
                        assert(l2.contains_key(fs2[j - fs.len()].price));
                        assert(l.contains_key(all[j].price));
                    } else {
                        assert(all[i] == fs2[i - fs.len()]);
                        assert(all[j] == fs2[j - fs.len()]);
                    }
                }
            } else {
                assert forall|i: int, j: int| 0 <= i < j < fs.len() implies match side {
                    OrderSide::Buy => #[trigger] fs[i].price <= #[trigger] fs[j].price,
                    OrderSide::Sell => fs[i].price >= fs[j].price,
                } by {
                    assert(fs[i].price == best && fs[j].price == best);
                }
            }
        }
    }
}

/// Law: on valid levels, the trades of a match add up to the quantity taken
/// from the incoming order, and each is of a positive quantity.
pub proof fn law_fills_add_up(l: Map<i64, Seq<RestingOrder>>, side: OrderSide, price: i64, rem: int)
    requires
        l.dom().finite(),
        valid_levels(l),
    ensures
        total_qty(match_side(l, side, price, rem).0) == rem - match_side(l, side, price, rem).2,
        forall|i: int| 0 <= i < match_side(l, side, price, rem).0.len() ==> (#[trigger] match_side(l, side, price, rem).0[i]).qty > 0,
{
    lemma_match_side_total(l, side, price, rem);
}

/// Law: when something is left of the incoming order after a match, no
/// resting price left on the opposite side is acceptable to it.
pub proof fn law_left_book_does_not_cross(l: Map<i64, Seq<RestingOrder>>, side: OrderSide, price: i64, rem: int)
    requires
        l.dom().finite(),
        match_side(l, side, price, rem).2 > 0,
    ensures
        forall|k: i64| #[trigger] match_side(l, side, price, rem).1.contains_key(k) ==> match side {
            OrderSide::Buy => k > price,
            OrderSide::Sell => k < price,
        },
    decreases l.dom().len(),
{
    if l.dom().len() == 0 || rem <= 0 {
    } else {
        let best = best_key(l, side);
        lemma_best_exists(l, side);
        if !crosses(side, best, price) {
            assert forall|k: i64| #[trigger] l.contains_key(k) implies !crosses(side, k, price) by {
                assert(l.contains_key(k));
            }
        } else {
            let (fs, q2, r2) = fill_level(l[best], best, rem);
            lemma_fill_level_left(l[best], best, rem);
            if q2.len() == 0 {
                law_left_book_does_not_cross(l.remove(best), side, price, r2);
            }
        }
    }
}

/// Every order of the levels belongs to one of `users`.
pub open spec fn users_within(l: Map<i64, Seq<RestingOrder>>, users: Set<Seq<char>>) -> bool {
    forall|k: i64, i: int| #![trigger l[k][i]]
        l.contains_key(k) && 0 <= i < l[k].len() ==> users.contains(l[k][i].user_id@)
}

proof fn lemma_fill_level_users(q: Seq<RestingOrder>, price: i64, rem: int, users: Set<Seq<char>>)
    requires
        forall|i: int| 0 <= i < q.len() ==> users.contains(#[trigger] q[i].user_id@),
    ensures
        forall|i: int| 0 <= i < fill_level(q, price, rem).1.len() ==> users.contains(#[trigger] fill_level(q, price, rem).1[i].user_id@),
    decreases q.len(),
{
    if rem <= 0 || q.len() == 0 {
    } else {
        let o = q[0];
        let avail = open_qty(o);
        let f = if avail < rem { avail } else { rem };
        if f == avail {
            let rest = q.drop_first();
            assert forall|i: int| 0 <= i < rest.len() implies users.contains(#[trigger] rest[i].user_id@) by {
                assert(rest[i] == q[i + 1]);
            }
            lemma_fill_level_users(rest, price, rem - f, users);
        } else {
            let o2 = RestingOrder { filled_qty: (o.filled_qty + f) as i64, ..o };
            assert forall|i: int| 0 <= i < q.update(0, o2).len() implies users.contains(#[trigger] q.update(0, o2)[i].user_id@) by {
                if i == 0 {
                    assert(q.update(0, o2)[i].user_id@ == q[0].user_id@);
                } else {
                    assert(q.update(0, o2)[i] == q[i]);
                }
            }
        }
    }
}

/// Law: matching neither brings in orders of new users nor trades with
/// them: if every resting order belongs to one of `users`, so does every
/// order left afterwards and the resting order of every trade.
pub proof fn law_match_keeps_users(l: Map<i64, Seq<RestingOrder>>, side: OrderSide, price: i64, rem: int, users: Set<Seq<char>>)
    requires
        l.dom().finite(),
        users_within(l, users),
    ensures
        users_within(match_side(l, side, price, rem).1, users),
        forall|i: int| 0 <= i < match_side(l, side, price, rem).0.len() ==> users.contains(
            #[trigger] match_side(l, side, price, rem).0[i].maker.user_id@,
        ),
    decreases l.dom().len(),
{
    lemma_match_side_steps(l, side, price, rem);
    let steps = match_side(l, side, price, rem).0;
    assert forall|i: int| 0 <= i < steps.len() implies users.contains(#[trigger] steps[i].maker.user_id@) by {
        let st = steps[i];
        let j = choose|j: int| 0 <= j < l[st.price].len() && l[st.price][j] == st.maker;
        assert(users.contains(l[st.price][j].user_id@));
    }
    if l.dom().len() == 0 || rem <= 0 {
    } else {
        let best = best_key(l, side);
        if crosses(side, best, price) {
            lemma_best_exists(l, side);
            let q = l[best];
            assert forall|i: int| 0 <= i < q.len() implies users.contains(#[trigger] q[i].user_id@) by {
                assert(users.contains(l[best][i].user_id@));
            }
            lemma_fill_level_users(q, best, rem, users);
            let (fs, q2, r2) = fill_level(q, best, rem);
            if q2.len() == 0 {
                let l2 = l.remove(best);
                assert(users_within(l2, users)) by {
                    assert forall|k: i64, i: int| #![trigger l2[k][i]] l2.contains_key(k) && 0 <= i < l2[k].len() implies users.contains(l2[k][i].user_id@) by {
                        assert(users.contains(l[k][i].user_id@));
                    }
                }
                law_match_keeps_users(l2, side, price, r2, users);
            } else {
                let l2 = l.insert(best, q2);
                assert(users_within(l2, users)) by {
                    assert forall|k: i64, i: int| #![trigger l2[k][i]] l2.contains_key(k) && 0 <= i < l2[k].len() implies users.contains(l2[k][i].user_id@) by {
                        if k == best {
                            assert(users.contains(q2[i].user_id@));
                        } else {
                            assert(users.contains(l[k][i].user_id@));
                        }
                    }
                }
            }
        }
    }
}

/// What is left to fill of the orders of a level, altogether.
pub open spec fn level_open(q: Seq<RestingOrder>) -> int
    decreases q.len(),
{
    if q.len() == 0 {
        0
    } else {
        open_qty(q[0]) + level_open(q.drop_first())
    }
}

/// What is left to fill of all the orders of a book side.
pub open spec fn side_open(l: Map<i64, Seq<RestingOrder>>) -> int
    decreases l.dom().len(),
    when l.dom().finite()
{
    if l.dom().len() == 0 {
        0
    } else {
        proof {
            lemma_best_exists(l, OrderSide::Buy);
        }
        let k = best_key(l, OrderSide::Buy);
        level_open(l[k]) + side_open(l.remove(k))
    }
}

/// A side's open quantity is any one level's plus the rest's.
pub proof fn lemma_side_open_split(l: Map<i64, Seq<RestingOrder>>, k: i64)
    requires
        l.dom().finite(),
        l.contains_key(k),
    ensures
        side_open(l) == level_open(l[k]) + side_open(l.remove(k)),
    decreases l.dom().len(),
{
    lemma_best_exists(l, OrderSide::Buy);
    let m = best_key(l, OrderSide::Buy);
    if m != k {
        let lm = l.remove(m);
        let lk = l.remove(k);
        lemma_side_open_split(lm, k);
        assert(lm.remove(k) =~= lk.remove(m));
        assert(is_best(lk, OrderSide::Buy, m));
        lemma_best_unique(lk, OrderSide::Buy, m);
        assert(lk.dom().len() > 0);
    }
}

proof fn lemma_fill_level_open(q: Seq<RestingOrder>, price: i64, rem: int)
    requires
        forall|i: int| 0 <= i < q.len() ==> valid_order(#[trigger] q[i]),
    ensures
        level_open(q) - level_open(fill_level(q, price, rem).1) == total_qty(fill_level(q, price, rem).0),
    decreases q.len(),
{
    if rem <= 0 || q.len() == 0 {
    } else {
        let o = q[0];
        assert(valid_order(q[0]));
        let avail = open_qty(o);
        let f = if avail < rem { avail } else { rem };
        let step = FillStep { price, maker: o, qty: f as i64, full: f == avail };
        assert(step.qty == f);
        if f == avail {
            let rest = q.drop_first();
            assert forall|i: int| 0 <= i < rest.len() implies valid_order(#[trigger] rest[i]) by {
                assert(rest[i] == q[i + 1]);
            }
            lemma_fill_level_open(rest, price, rem - f);
            let fs = fill_level(rest, price, rem - f).0;
            assert((seq![step] + fs).drop_first() =~= fs);
            assert(total_qty(seq![step] + fs) == f + total_qty(fs));
        } else {
            let o2 = RestingOrder { filled_qty: (o.filled_qty + f) as i64, ..o };
            let q2 = q.update(0, o2);
            assert(q2.drop_first() =~= q.drop_first());
            assert(seq![step].drop_first() =~= Seq::<FillStep>::empty());
            assert(total_qty(seq![step]) == f + total_qty(Seq::<FillStep>::empty()));
        }
    }
}

/// Law: on valid levels, what a match takes from the resting orders is
/// exactly what it fills: the side's open quantity falls by the quantity
/// traded, which is what was taken from the incoming order.
pub proof fn law_match_takes_what_it_fills(l: Map<i64, Seq<RestingOrder>>, side: OrderSide, price: i64, rem: int)
    requires
        l.dom().finite(),
        valid_levels(l),
    ensures
        match_side(l, side, price, rem).1.dom().finite(),
        side_open(l) - side_open(match_side(l, side, price, rem).1) == total_qty(match_side(l, side, price, rem).0),
        total_qty(match_side(l, side, price, rem).0) == rem - match_side(l, side, price, rem).2,
    decreases l.dom().len(),
{
    lemma_match_side_total(l, side, price, rem);
    if l.dom().len() == 0 || rem <= 0 {
    } else {
        let best = best_key(l, side);
        if crosses(side, best, price) {
            lemma_best_exists(l, side);
            let q = l[best];
            assert forall|i: int| 0 <= i < q.len() implies valid_order(#[trigger] q[i]) by {
                assert(valid_order(l[best][i]));
            }
            lemma_fill_level_open(q, best, rem);
            lemma_side_open_split(l, best);
            let (fs, q2, r2) = fill_level(q, best, rem);
            if q2.len() == 0 {
                let l2 = l.remove(best);
                assert(valid_levels(l2)) by {
                    assert forall|k: i64, i: int| l2.contains_key(k) && 0 <= i < l2[k].len() implies valid_order(#[trigger] l2[k][i]) by {
                        assert(valid_order(l[k][i]));
                    }
                }
                law_match_takes_what_it_fills(l2, side, price, r2);
                lemma_total_concat(fs, match_side(l2, side, price, r2).0);
            } else {
                let l2 = l.insert(best, q2);
                lemma_side_open_split(l2, best);
                assert(l2.remove(best) =~= l.remove(best));
            }
        }
    }
}

/// A finite non-empty set of levels has a best price.
pub proof fn lemma_best_exists(l: Map<i64, Seq<RestingOrder>>, side: OrderSide)
    requires
        l.dom().finite(),
        l.dom().len() > 0,
    ensures
        is_best(l, side, best_key(l, side)),
{
    let lowest = side == OrderSide::Buy;
    lemma_set_extreme(l.dom(), lowest);
    let k = choose|k: i64| l.dom().contains(k) && forall|j: i64| #[trigger] l.dom().contains(j) ==> if lowest { k <= j } else { j <= k };
    assert(is_best(l, side, k));
}

/// The best price is unique.
pub proof fn lemma_best_unique(l: Map<i64, Seq<RestingOrder>>, side: OrderSide, k: i64)
    requires
        is_best(l, side, k),
    ensures
        best_key(l, side) == k,
{
    let b = best_key(l, side);
    assert(is_best(l, side, b));
    assert(l.contains_key(b) && l.contains_key(k));
}

/// After matching one level, what is left of the level is non-empty only if
/// nothing is left of the incoming quantity.
pub proof fn lemma_fill_level_left(q: Seq<RestingOrder>, price: i64, rem: int)
    ensures
        fill_level(q, price, rem).1.len() > 0 ==> fill_level(q, price, rem).2 <= 0,
    decreases q.len(),
{
    if rem <= 0 || q.len() == 0 {
    } else {
        let o = q[0];
        let avail = open_qty(o);
        let f = if avail < rem { avail } else { rem };
        if f == avail {
            lemma_fill_level_left(q.drop_first(), price, rem - f);
        }
    }
}

/// Law: matching a level trades with its oldest orders in turn: the trades'
/// makers are the first orders of the level, in order; a trade fills its
/// maker completely exactly when it takes all that was open of it, and
/// every trade but the last does; the completely filled makers leave the
/// level, and a maker that the last trade filled partly stays at its front
/// with the traded quantity added to what was filled of it.
pub proof fn law_level_keeps_only_partly_filled(q: Seq<RestingOrder>, price: i64, rem: int)
    requires
        forall|i: int| 0 <= i < q.len() ==> valid_order(#[trigger] q[i]),
    ensures
        ({
            let (fs, q2, r2) = fill_level(q, price, rem);
            let n = fs.len() as int;
            &&& n <= q.len()
            &&& forall|i: int| 0 <= i < n ==> (#[trigger] fs[i]).maker == q[i]
            &&& forall|i: int| 0 <= i < n ==> (#[trigger] fs[i]).full == (fs[i].qty == open_qty(q[i]))
            &&& forall|i: int| 0 <= i < n - 1 ==> (#[trigger] fs[i]).full
            &&& if n > 0 && !fs[n - 1].full {
                q2 == q.subrange(n - 1, q.len() as int).update(
                    0,
                    RestingOrder { filled_qty: (q[n - 1].filled_qty + fs[n - 1].qty) as i64, ..q[n - 1] },
                )
            } else {
                q2 == q.subrange(n, q.len() as int)
            }
        }),
    decreases q.len(),
{
    if rem <= 0 || q.len() == 0 {
        assert(q.subrange(0, q.len() as int) =~= q);
    } else {
        let o = q[0];
        assert(valid_order(q[0]));
        let avail = open_qty(o);
        let f = if avail < rem { avail } else { rem };
        if f == avail {
            let rest = q.drop_first();
            assert forall|i: int| 0 <= i < rest.len() implies valid_order(#[trigger] rest[i]) by {
                assert(rest[i] == q[i + 1]);
            }
            law_level_keeps_only_partly_filled(rest, price, rem - f);
            let step = FillStep { price, maker: o, qty: f as i64, full: true };
            let (fs1, q3, r3) = fill_level(rest, price, rem - f);
            let fs = seq![step] + fs1;
            let n1 = fs1.len() as int;
            assert forall|i: int| 0 <= i < n1 + 1 implies (#[trigger] fs[i]).maker == q[i] && fs[i].full == (fs[i].qty == open_qty(q[i])) by {
                if i > 0 {
                    assert(fs[i] == fs1[i - 1]);
                    assert(rest[i - 1] == q[i]);
                }
            }
            assert forall|i: int| 0 <= i < n1 implies (#[trigger] fs[i]).full by {
                if i > 0 {
                    assert(fs[i] == fs1[i - 1]);
                }
            }
            if n1 > 0 {
                assert(fs[n1] == fs1[n1 - 1]);
                assert(rest[n1 - 1] == q[n1]);
                assert(rest.subrange(n1 - 1, rest.len() as int) =~= q.subrange(n1, q.len() as int));
            }
            assert(rest.subrange(n1, rest.len() as int) =~= q.subrange(n1 + 1, q.len() as int));
        } else {
            assert(q.subrange(0, q.len() as int) =~= q);
        }
    }
}

/// No level is empty, and every order of a level rests at the level's price.
pub open spec fn tidy(l: Map<i64, Seq<RestingOrder>>) -> bool {
    forall|k: i64| #[trigger] l.contains_key(k) ==> l[k].len() > 0 && forall|i: int|
        0 <= i < l[k].len() ==> #[trigger] l[k][i].price == k
}

proof fn lemma_fill_level_prices(q: Seq<RestingOrder>, price: i64, rem: int, k: i64)
    requires
        forall|i: int| 0 <= i < q.len() ==> #[trigger] q[i].price == k,
    ensures
        forall|i: int| 0 <= i < fill_level(q, price, rem).1.len() ==> #[trigger] fill_level(q, price, rem).1[i].price == k,
    decreases q.len(),
{
    if rem > 0 && q.len() > 0 {
        let o = q[0];
        let avail = open_qty(o);
        let f = if avail < rem { avail } else { rem };
        if f == avail {
            let rest = q.drop_first();
            assert forall|i: int| 0 <= i < rest.len() implies #[trigger] rest[i].price == k by {
                assert(rest[i] == q[i + 1]);
            }
            lemma_fill_level_prices(rest, price, rem - f, k);
        } else {
            assert(q[0].price == k);
        }
    }
}

/// Law: matching keeps a book side tidy: it leaves no empty level behind,
/// and every order it leaves rests at its level's price.
pub proof fn law_match_keeps_tidy(l: Map<i64, Seq<RestingOrder>>, side: OrderSide, price: i64, rem: int)
    requires
        l.dom().finite(),
        tidy(l),
    ensures
        tidy(match_side(l, side, price, rem).1),
    decreases l.dom().len(),
{
    if l.dom().len() > 0 && rem > 0 {
        let best = best_key(l, side);
        if crosses(side, best, price) {
            lemma_best_exists(l, side);
            let (fs, q2, r2) = fill_level(l[best], best, rem);
            if q2.len() == 0 {
                let l2 = l.remove(best);
                assert(tidy(l2)) by {
                    assert forall|k: i64| #[trigger] l2.contains_key(k) implies l2[k].len() > 0 && forall|i: int|
                        0 <= i < l2[k].len() ==> #[trigger] l2[k][i].price == k by {
                        assert(l.contains_key(k));
                    }
                }
                law_match_keeps_tidy(l2, side, price, r2);
            } else {
                lemma_fill_level_prices(l[best], best, rem, best);
                let l2 = l.insert(best, q2);
                assert forall|k: i64| #[trigger] l2.contains_key(k) implies l2[k].len() > 0 && forall|i: int|
                    0 <= i < l2[k].len() ==> #[trigger] l2[k][i].price == k by {
                    if k != best {
                        assert(l.contains_key(k));
                    }
                }
            }
        }
    }
}

proof fn lemma_fill_level_valid(q: Seq<RestingOrder>, price: i64, rem: int)
    requires
        forall|i: int| 0 <= i < q.len() ==> valid_order(#[trigger] q[i]),
    ensures
        forall|i: int| 0 <= i < fill_level(q, price, rem).1.len() ==> valid_order(#[trigger] fill_level(q, price, rem).1[i]),
    decreases q.len(),
{
    if rem > 0 && q.len() > 0 {
        let o = q[0];
        assert(valid_order(q[0]));
        let avail = open_qty(o);
        let f = if avail < rem { avail } else { rem };
        let rest = q.drop_first();
        assert forall|i: int| 0 <= i < rest.len() implies valid_order(#[trigger] rest[i]) by {
            assert(rest[i] == q[i + 1]);
        }
        if f == avail {
            lemma_fill_level_valid(rest, price, rem - f);
            assert(fill_level(q, price, rem).1 == fill_level(rest, price, rem - f).1);
        } else {
            let q2 = fill_level(q, price, rem).1;
            let o2 = RestingOrder { filled_qty: (o.filled_qty + f) as i64, ..o };
            assert(q2 == q.update(0, o2));
            assert(0 <= o.filled_qty + f < o.qty);
            assert(valid_order(o2));
            assert forall|i: int| 0 <= i < q2.len() implies valid_order(#[trigger] q2[i]) by {
                if i > 0 {
                    assert(q2[i] == q[i]);
                    assert(valid_order(q[i]));
                }
            }
        }
    }
}

/// Law: what a whole match does to the opposite side of the book. It keeps
/// the side valid and tidy; the side's open quantity falls by what the
/// trades add up to, which is what was taken of the incoming quantity; the
/// trades fill their makers completely exactly when they take all that was
/// open of them, and every trade but the last does; no level appears, and
/// every level but the one of the last trade is either untouched or gone.
/// A maker that the last trade fills partly stays at the front of its level
/// with the traded quantity added to what was filled of it, the orders
/// behind it unchanged; a maker that it fills completely leaves, and what is
/// left of its level (if anything) is the end of the level as it was.
pub proof fn law_match_whole(l: Map<i64, Seq<RestingOrder>>, side: OrderSide, price: i64, rem: int)
    requires
        l.dom().finite(),
        valid_levels(l),
        tidy(l),
    ensures
        ({
            let (s, r, rem2) = match_side(l, side, price, rem);
            let n = s.len() as int;
            &&& valid_levels(r)
            &&& tidy(r)
            &&& r.dom().finite()
            &&& side_open(l) - side_open(r) == total_qty(s)
            &&& total_qty(s) == rem - rem2
            &&& forall|i: int| 0 <= i < n - 1 ==> (#[trigger] s[i]).full
            &&& forall|i: int| 0 <= i < n ==> (#[trigger] s[i]).full == (s[i].qty == open_qty(s[i].maker))
            &&& forall|k: i64| #[trigger] r.contains_key(k) ==> l.contains_key(k)
            &&& forall|k: i64| #[trigger] r.contains_key(k) && (n == 0 || k != s[n - 1].price) ==> r[k] == l[k]
            &&& n > 0 && !s[n - 1].full ==> {
                let p = s[n - 1].price;
                let m = s[n - 1].maker;
                &&& r.contains_key(p)
                &&& r[p][0] == RestingOrder { filled_qty: (m.filled_qty + s[n - 1].qty) as i64, ..m }
                &&& r[p].drop_first() == l[p].subrange(l[p].len() - r[p].len() + 1, l[p].len() as int)
            }
            &&& n > 0 && s[n - 1].full && r.contains_key(s[n - 1].price) ==> {
                let p = s[n - 1].price;
                &&& r[p].len() < l[p].len()
                &&& r[p] == l[p].subrange(l[p].len() - r[p].len(), l[p].len() as int)
            }
        }),
    decreases l.dom().len(),
{
    law_match_keeps_tidy(l, side, price, rem);
    law_match_takes_what_it_fills(l, side, price, rem);
    if l.dom().len() > 0 && rem > 0 {
        let best = best_key(l, side);
        if crosses(side, best, price) {
            lemma_best_exists(l, side);
            let q = l[best];
            assert forall|i: int| 0 <= i < q.len() implies valid_order(#[trigger] q[i]) by {
                assert(valid_order(l[best][i]));
            }
            law_level_keeps_only_partly_filled(q, best, rem);
            lemma_fill_level_valid(q, best, rem);
            lemma_fill_level_steps(q, best, rem);
            let (fs, q2, r2) = fill_level(q, best, rem);
            let n1 = fs.len() as int;
            assert(q.len() > 0);
            assert(n1 > 0);
            if q2.len() == 0 {
                let l2 = l.remove(best);
                assert(valid_levels(l2)) by {
                    assert forall|k: i64, i: int| l2.contains_key(k) && 0 <= i < l2[k].len() implies valid_order(#[trigger] l2[k][i]) by {
                        assert(valid_order(l[k][i]));
                    }
                }
                assert(tidy(l2)) by {
                    assert forall|k: i64| #[trigger] l2.contains_key(k) implies l2[k].len() > 0 && forall|i: int|
                        0 <= i < l2[k].len() ==> #[trigger] l2[k][i].price == k by {
                        assert(l.contains_key(k));
                    }
                }
                law_match_whole(l2, side, price, r2);
                lemma_match_side_steps(l2, side, price, r2);
                let (fs2, rr, r3) = match_side(l2, side, price, r2);
                let s = fs + fs2;
                let n = s.len() as int;
                // the level is used up: its last trade filled its maker completely
                assert(fs[n1 - 1].full) by {
                    if !fs[n1 - 1].full {
                        assert(q2.len() > 0);
                    }
                }
                assert forall|i: int| 0 <= i < n - 1 implies (#[trigger] s[i]).full by {
                    if i < n1 {
                        assert(s[i] == fs[i]);
                    } else {
                        assert(s[i] == fs2[i - n1]);
                    }
                }
                assert forall|i: int| 0 <= i < n implies (#[trigger] s[i]).full == (s[i].qty == open_qty(s[i].maker)) by {
                    if i < n1 {
                        assert(s[i] == fs[i]);
                    } else {
                        assert(s[i] == fs2[i - n1]);
                    }
                }
                if fs2.len() > 0 {
                    let last = fs2[fs2.len() - 1];
                    assert(s[n - 1] == last);
                    assert(l2.contains_key(last.price));
                    assert(l2[last.price] == l[last.price]);
                } else {
                    assert(s[n - 1] == fs[n1 - 1]);
                    assert(fs[n1 - 1].price == best);
                    assert(!rr.contains_key(best));
                }
            } else {
                lemma_fill_level_left(q, best, rem);
                let r = l.insert(best, q2);
                assert(match_side(l, side, price, rem) == (fs, r, r2));
                assert(fs[n1 - 1].price == best);
                if !fs[n1 - 1].full {
                    assert(q2 == q.subrange(n1 - 1, q.len() as int).update(0, RestingOrder {
                        filled_qty: (q[n1 - 1].filled_qty + fs[n1 - 1].qty) as i64,
                        ..q[n1 - 1]
                    }));
                    assert(fs[n1 - 1].maker == q[n1 - 1]);
                    assert(q2.drop_first() =~= q.subrange(n1, q.len() as int));
                    assert(q.len() - q2.len() + 1 == n1);
                } else {
                    assert(q2 == q.subrange(n1, q.len() as int));
                }
            }
        }
    }
}

proof fn lemma_levels_remove(m: BTreeMap<i64, VecDeque<RestingOrder>>, m2: BTreeMap<i64, VecDeque<RestingOrder>>, k: i64)
    requires
        m2@ == m@.remove(k),
    ensures
        levels(m2) == levels(m).remove(k),
{
    assert(levels(m2) =~= levels(m).remove(k));
}

proof fn lemma_levels_insert(m: BTreeMap<i64, VecDeque<RestingOrder>>, m2: BTreeMap<i64, VecDeque<RestingOrder>>, k: i64, q: VecDeque<RestingOrder>)
    requires
        m2@ == m@.insert(k, q),
    ensures
        levels(m2) == levels(m).insert(k, q@),
{
    assert(levels(m2) =~= levels(m).insert(k, q@));
}

/// Both sides of a book have finitely many levels.
pub proof fn lemma_levels_finite_of(b: OrderBook, side: OrderSide)
    ensures
        b.opposite(side).dom().finite(),
        b.own(side).dom().finite(),
{
    lemma_levels_finite(b.asks);
    lemma_levels_finite(b.bids);
}

proof fn lemma_levels_finite(m: BTreeMap<i64, VecDeque<RestingOrder>>)
    ensures
        levels(m).dom().finite(),
        levels(m).dom() == m@.dom(),
{
    assert(levels(m).dom() =~= m@.dom());
}

/// The lowest key of `m`.
///
/// Calls `BTreeMap::first_key_value`, which gives the entry with the minimum
/// key, or `None` when the map is empty.
#[verifier::external_body]
fn first_price<V>(m: &BTreeMap<i64, V>) -> (r: Option<i64>)
    ensures
        match r {
            Some(k) => m@.contains_key(k) && forall|j: i64| #[trigger] m@.contains_key(j) ==> k <= j,
            None => m@.dom().is_empty(),
        },
{
    match m.first_key_value() {
        Some((k, _)) => Some(*k),
        None => None,
    }
}

/// The highest key of `m`.
///
/// Calls `BTreeMap::last_key_value`, which gives the entry with the maximum
/// key, or `None` when the map is empty.
#[verifier::external_body]
fn last_price<V>(m: &BTreeMap<i64, V>) -> (r: Option<i64>)
    ensures
        match r {
            Some(k) => m@.contains_key(k) && forall|j: i64| #[trigger] m@.contains_key(j) ==> j <= k,
            None => m@.dom().is_empty(),
        },
{
    match m.last_key_value() {
        Some((k, _)) => Some(*k),
        None => None,
    }
}

/// The lowest key of `m` above `start`.
///
/// Calls `BTreeMap::range` with the bounds `(Excluded(start), Unbounded)` and
/// takes the first entry of the range, which iterates in ascending key order.
#[verifier::external_body]
fn price_above<V>(m: &BTreeMap<i64, V>, start: i64) -> (r: Option<i64>)
    ensures
        match r {
            Some(k) => m@.contains_key(k) && start < k && forall|j: i64| #[trigger] m@.contains_key(j) && start < j ==> k <= j,
            None => forall|j: i64| #[trigger] m@.contains_key(j) ==> j <= start,
        },
{
    match m.range((Bound::Excluded(start), Bound::Unbounded)).next() {
        Some((k, _)) => Some(*k),
        None => None,
    }
}

/// The highest key of `m` below `start`.
///
/// Calls `BTreeMap::range` with the bounds `(Unbounded, Excluded(start))` and
/// takes the last entry of the range (`next_back`), which is the greatest key.
#[verifier::external_body]
fn price_below<V>(m: &BTreeMap<i64, V>, start: i64) -> (r: Option<i64>)
    ensures
        match r {
            Some(k) => m@.contains_key(k) && k < start && forall|j: i64| #[trigger] m@.contains_key(j) && j < start ==> j <= k,
            None => forall|j: i64| #[trigger] m@.contains_key(j) ==> start <= j,
        },
{
    match m.range((Bound::Unbounded, Bound::Excluded(start))).next_back() {
        Some((k, _)) => Some(*k),
        None => None,
    }
}

impl OrderBook {
    /// Both sides hold valid orders only.
    pub open spec fn wf(&self) -> bool {
        valid_levels(levels(self.bids)) && valid_levels(levels(self.asks))
    }

    /// The side an incoming order of `side` trades against.
    pub open spec fn opposite(&self, side: OrderSide) -> Map<i64, Seq<RestingOrder>> {
        match side {
            OrderSide::Buy => levels(self.asks),
            OrderSide::Sell => levels(self.bids),
        }
    }

    /// The side an incoming order of `side` would rest on.
    pub open spec fn own(&self, side: OrderSide) -> Map<i64, Seq<RestingOrder>> {
        match side {
            OrderSide::Buy => levels(self.bids),
            OrderSide::Sell => levels(self.asks),
        }
    }

    /// The lowest ask price, or the lowest above `start_from`.
    fn get_next_best_ask_price(&self, start_from: Option<i64>) -> (r: Option<i64>)
        ensures
            match start_from {
                None => match r {
                    Some(k) => is_best(levels(self.asks), OrderSide::Buy, k),
                    None => levels(self.asks).dom().len() == 0,
                },
                Some(s) => match r {
                    Some(k) => levels(self.asks).contains_key(k) && s < k && forall|j: i64|
                        #[trigger] levels(self.asks).contains_key(j) && s < j ==> k <= j,
                    None => forall|j: i64| #[trigger] levels(self.asks).contains_key(j) ==> j <= s,
                },
            },
    {
        proof {
            lemma_levels_finite(self.asks);
        }
        match start_from {
            None => first_price(&self.asks),
            Some(start) => price_above(&self.asks, start),
        }
    }

    /// The highest bid price, or the highest below `start_from`.
    fn get_next_best_bid_price(&self, start_from: Option<i64>) -> (r: Option<i64>)
        ensures
            match start_from {
                None => match r {
                    Some(k) => is_best(levels(self.bids), OrderSide::Sell, k),
                    None => levels(self.bids).dom().len() == 0,
                },
                Some(s) => match r {
                    Some(k) => levels(self.bids).contains_key(k) && k < s && forall|j: i64|
                        #[trigger] levels(self.bids).contains_key(j) && j < s ==> j <= k,
                    None => forall|j: i64| #[trigger] levels(self.bids).contains_key(j) ==> s <= j,
                },
            },
    {
        proof {
            lemma_levels_finite(self.bids);
        }
        match start_from {
            None => last_price(&self.bids),
            Some(start) => price_below(&self.bids, start),
        }
    }
    /// Matches an incoming limit order of `user_id` against the opposite side
    /// of the book, in price-time priority, for as long as the best resting
    /// price crosses `price` and something is left of `qty`. Fully filled
    /// resting orders leave the book, and so do emptied levels; the incoming
    /// order itself is not placed in the book.
    pub fn match_limit(&mut self, user_id: &str, side: OrderSide, price: i64, qty: i64) -> (result: MatchResult)
        requires
            old(self).wf(),
        ensures
            final(self).wf(),
            events_of(result.fills@, match_side(old(self).opposite(side), side, price, qty as int).0, user_id@, side),
            final(self).opposite(side) == match_side(old(self).opposite(side), side, price, qty as int).1,
            result.remaining_qty == match_side(old(self).opposite(side), side, price, qty as int).2,
            final(self).own(side) == old(self).own(side),
            side == OrderSide::Buy ==> final(self).bids@ == old(self).bids@,
            side == OrderSide::Sell ==> final(self).asks@ == old(self).asks@,
            result.filled_qty == qty - result.remaining_qty,
            qty > 0 ==> 0 <= result.remaining_qty <= qty,
            qty <= 0 ==> result.remaining_qty == qty,
            result.requested_price == price,
            result.taker_final_status == status_for(qty as int, result.filled_qty as int),
            result.filled_qty == 0 ==> result.taker_final_status == OrderStatus::Open,
            0 < result.filled_qty < qty ==> result.taker_final_status == OrderStatus::PartialFilled,
            0 < result.filled_qty && result.remaining_qty == 0 ==> result.taker_final_status == OrderStatus::Filled,
            forall|i: int| 0 <= i < result.fills@.len() ==> (#[trigger] result.fills@[i]).fill_id@.len() == 36,
    {
        let ghost orig = *self;
        let ghost ms0 = match_side(orig.opposite(side), side, price, qty as int);
        let mut remaining_qty = qty;
        let mut fills: Vec<FillEvent> = Vec::new();
        let ghost mut done_steps: Seq<FillStep> = Seq::empty();
        let mut best_next_price = match side {
            OrderSide::Buy => self.get_next_best_ask_price(None),
            OrderSide::Sell => self.get_next_best_bid_price(None),
        };
        let mut done = false;
        proof {
            lemma_levels_finite(self.asks);
            lemma_levels_finite(self.bids);
        }
        while !done
            invariant
                self.wf(),
                side == OrderSide::Buy ==> self.bids@ == orig.bids@,
                side == OrderSide::Sell ==> self.asks@ == orig.asks@,
                self.opposite(side).dom().finite(),
                events_of(fills@, done_steps, user_id@, side),
                forall|i: int| 0 <= i < fills@.len() ==> (#[trigger] fills@[i]).fill_id@.len() == 36,
                done_steps + match_side(self.opposite(side), side, price, remaining_qty as int).0 == ms0.0,
                match_side(self.opposite(side), side, price, remaining_qty as int).1 == ms0.1,
                match_side(self.opposite(side), side, price, remaining_qty as int).2 == ms0.2,
                qty > 0 ==> 0 <= remaining_qty <= qty,
                qty <= 0 ==> remaining_qty == qty,
                !done && remaining_qty > 0 ==> match best_next_price {
                    Some(k) => is_best(self.opposite(side), side, k),
                    None => self.opposite(side).dom().len() == 0,
                },
                done ==> match_side(self.opposite(side), side, price, remaining_qty as int) == (
                Seq::<FillStep>::empty(), self.opposite(side), remaining_qty as int),
            decreases
                2 * self.opposite(side).dom().len() + (if remaining_qty > 0 { 1int } else { 0int }) + (
                if done { 0int } else { 1int }),
        {
            match best_next_price {
                None => {
                    done = true;
                },
                Some(best_price) => {
                    let price_crossed = match side {
                        OrderSide::Buy => best_price <= price,
                        OrderSide::Sell => best_price >= price,
                    };
                    if remaining_qty <= 0 || !price_crossed {
                        proof {
                            if remaining_qty > 0 {
                                lemma_best_unique(self.opposite(side), side, best_price);
                            }
                        }
                        done = true;
                    } else {
                        let ghost cur = self.opposite(side);
                        let ghost before = *self;
                        proof {
                            lemma_best_unique(cur, side, best_price);
                        }
                        let taken = match side {
                            OrderSide::Buy => self.asks.remove(&best_price),
                            OrderSide::Sell => self.bids.remove(&best_price),
                        };
                        let mut orders_at_price = taken.unwrap();
                        proof {
                            match side {
                                OrderSide::Buy => lemma_levels_remove(before.asks, self.asks, best_price),
                                OrderSide::Sell => lemma_levels_remove(before.bids, self.bids, best_price),
                            }
                            assert(orders_at_price@ == cur[best_price]);
                        }
                        let ghost q0 = orders_at_price@;
                        let ghost r0 = remaining_qty as int;
                        let ghost fl0 = fill_level(q0, best_price, r0);
                        let ghost mut level_steps: Seq<FillStep> = Seq::empty();
                        while remaining_qty > 0 && orders_at_price.len() > 0
                            invariant
                                self.wf(),
                                self.opposite(side) == cur.remove(best_price),
                                side == OrderSide::Buy ==> self.bids@ == orig.bids@,
                                side == OrderSide::Sell ==> self.asks@ == orig.asks@,
                                forall|i: int| 0 <= i < orders_at_price@.len() ==> valid_order(
                                    #[trigger] orders_at_price@[i]),
                                events_of(fills@, done_steps + level_steps, user_id@, side),
                                forall|i: int| 0 <= i < fills@.len() ==> (#[trigger] fills@[i]).fill_id@.len() == 36,
                                level_steps + fill_level(orders_at_price@, best_price, remaining_qty as int).0 == fl0.0,
                                fill_level(orders_at_price@, best_price, remaining_qty as int).1 == fl0.1,
                                fill_level(orders_at_price@, best_price, remaining_qty as int).2 == fl0.2,
                                qty > 0 ==> 0 <= remaining_qty <= qty,
                                qty <= 0 ==> remaining_qty == qty,
                            decreases
                                2 * orders_at_price@.len() + (if remaining_qty > 0 { 1int } else { 0int }),
                        {
                            let ghost q = orders_at_price@;
                            let ghost rem = remaining_qty as int;
                            let ghost fills_before = fills@;
                            let ghost level_before = level_steps;
                            let mut resting_order = orders_at_price.pop_front().unwrap();
                            assert(valid_order(q[0]));
                            let available_qty = resting_order.qty - resting_order.filled_qty;
                            let fill_id = new_id();
                            let fill_qty = if available_qty < remaining_qty {
                                available_qty
                            } else {
                                remaining_qty
                            };
                            let ghost step = FillStep {
                                price: best_price,
                                maker: resting_order,
                                qty: fill_qty,
                                full: fill_qty == available_qty,
                            };
                            let mut fill_event = FillEvent {
                                fill_id,
                                price: best_price,
                                qty: fill_qty,
                                maker_user_id: resting_order.user_id.clone(),
                                maker_order_id: resting_order.order_id.clone(),
                                taker_user_id: user_id.to_owned(),
                                taker_side: side,
                                is_maker_fully_filled: false,
                                maker_total_qty: resting_order.qty,
                            };
                            resting_order.filled_qty = resting_order.filled_qty + fill_qty;
                            remaining_qty = remaining_qty - fill_qty;
                            if fill_qty == available_qty {
                                fill_event.is_maker_fully_filled = true;
                                proof {
                                    assert(q.drop_first() == orders_at_price@);
                                }
                            } else {
                                orders_at_price.push_front(resting_order);
                                proof {
                                    assert(orders_at_price@ =~= q.update(0, resting_order));
                                }
                            }
                            fills.push(fill_event);
                            proof {
                                let old_steps = done_steps + level_steps;
                                level_steps = level_steps.push(step);
                                assert(event_of(fill_event, step, user_id@, side));
                                assert(done_steps + level_steps =~= old_steps.push(step));
                                assert forall|i: int| 0 <= i < fills@.len() implies #[trigger] event_of(
                                    fills@[i],
                                    (done_steps + level_steps)[i],
                                    user_id@,
                                    side,
                                ) by {
                                    if i < old_steps.len() {
                                        assert(fills@[i] == fills_before[i]);
                                    }
                                }
                                assert forall|i: int| 0 <= i < fills@.len() implies (#[trigger] fills@[i]).fill_id@.len() == 36 by {
                                    if i < fills_before.len() {
                                        assert(fills@[i] == fills_before[i]);
                                    }
                                }
                                let fl = fill_level(q, best_price, rem);
                                let fl2 = fill_level(orders_at_price@, best_price, remaining_qty as int);
                                assert(fl.0 == seq![step] + fl2.0);
                                assert(level_steps + fl2.0 =~= level_before + fl.0);
                            }
                        }
                        let ghost q2 = orders_at_price@;
                        proof {
                            assert(level_steps =~= fl0.0);
                            assert(q2 == fl0.1);
                            lemma_fill_level_left(q0, best_price, r0);
                        }
                        let ghost mid = *self;
                        if orders_at_price.len() > 0 {
                            match side {
                                OrderSide::Buy => {
                                    self.asks.insert(best_price, orders_at_price);
                                },
                                OrderSide::Sell => {
                                    self.bids.insert(best_price, orders_at_price);
                                },
                            }
                            proof {
                                match side {
                                    OrderSide::Buy => lemma_levels_insert(mid.asks, self.asks, best_price, orders_at_price),
                                    OrderSide::Sell => lemma_levels_insert(mid.bids, self.bids, best_price, orders_at_price),
                                }
                                assert(self.opposite(side) =~= cur.insert(best_price, q2));
                            }
                        }
                        best_next_price = match side {
                            OrderSide::Buy => self.get_next_best_ask_price(Some(best_price)),
                            OrderSide::Sell => self.get_next_best_bid_price(Some(best_price)),
                        };
                        proof {
                            lemma_levels_finite(self.asks);
                            lemma_levels_finite(self.bids);
                            let ms_cur = match_side(cur, side, price, r0);
                            assert(ms_cur.0 == fl0.0 + (if q2.len() == 0 {
                                match_side(cur.remove(best_price), side, price, remaining_qty as int).0
                            } else {
                                Seq::empty()
                            }));
                            let done_before = done_steps;
                            done_steps = done_steps + level_steps;
                            if q2.len() == 0 {
                                let nxt = self.opposite(side);
                                assert(done_steps + match_side(nxt, side, price, remaining_qty as int).0 =~= done_before + ms_cur.0);
                                if remaining_qty > 0 {
                                    match best_next_price {
                                        Some(k) => {
                                            assert forall|j: i64| #[trigger] nxt.contains_key(j) implies match side {
                                                OrderSide::Buy => k <= j,
                                                OrderSide::Sell => j <= k,
                                            } by {
                                                assert(cur.contains_key(j));
                                            }
                                        },
                                        None => {
                                            assert(nxt.dom() =~= Set::<i64>::empty()) by {
                                                assert forall|j: i64| !nxt.dom().contains(j) by {
                                                    if nxt.contains_key(j) {
                                                        assert(cur.contains_key(j));
                                                    }
                                                }
                                            }
                                        },
                                    }
                                }
                            } else {
                                assert(done_steps =~= done_before + ms_cur.0);
                            }
                        }
                    }
                },
            }
        }
        proof {
            assert(done_steps =~= ms0.0);
        }
        let filled_qty = qty - remaining_qty;
        let taker_final_status;
        if filled_qty == 0 {
            taker_final_status = OrderStatus::Open;
        } else if qty > filled_qty {
            taker_final_status = OrderStatus::PartialFilled;
        } else {
            taker_final_status = OrderStatus::Filled;
        }
        MatchResult {
            fills,
            filled_qty,
            remaining_qty,
            requested_price: price,
            taker_final_status,
        }
    }
    /// A book with the same levels on both sides.
    pub fn copy(&self) -> (c: OrderBook)
        ensures
            c.bids@ == self.bids@,
            c.asks@ == self.asks@,
            levels(c.bids) == levels(self.bids),
            levels(c.asks) == levels(self.asks),
    {
        OrderBook { bids: self.bids.clone(), asks: self.asks.clone() }
    }
}

} // verus!
