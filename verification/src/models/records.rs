//! Recording a match: the fills, the taker's order record and the records
//! of the resting orders it traded with.
use vstd::prelude::*;

use crate::models::store::{Fill, FillEvent, MatchResult, OrderRecord, OrderSide, OrderStatus, OrderType, Store};
use crate::stamps::now_millis;
use crate::table::Table;

verus! {

/// A fill without its timestamp.
pub struct FillView {
    pub fill_id: Seq<char>,
    pub symbol: Seq<char>,
    pub price: i64,
    pub qty: i64,
    pub buy_order_id: Seq<char>,
    pub buy_user_id: Seq<char>,
    pub sell_order_id: Seq<char>,
    pub sell_user_id: Seq<char>,
}

impl View for Fill {
    type V = FillView;

    open spec fn view(&self) -> FillView {
        FillView {
            fill_id: self.fill_id@,
            symbol: self.symbol@,
            price: self.price,
            qty: self.qty,
            buy_order_id: self.buy_order_id@,
            buy_user_id: self.buy_user_id@,
            sell_order_id: self.sell_order_id@,
            sell_user_id: self.sell_user_id@,
        }
    }
}

/// An order record without its timestamps.
pub struct OrderRecordView {
    pub order_id: Seq<char>,
    pub user_id: Seq<char>,
    pub side: OrderSide,
    pub order_type: OrderType,
    pub symbol: Seq<char>,
    pub price: Option<i64>,
    pub qty: i64,
    pub filled_qty: i64,
    pub status: OrderStatus,
    pub fills: Seq<FillView>,
}

pub open spec fn fills_view(fills: Seq<Fill>) -> Seq<FillView> {
    fills.map_values(|f: Fill| f@)
}

impl View for OrderRecord {
    type V = OrderRecordView;

    open spec fn view(&self) -> OrderRecordView {
        OrderRecordView {
            order_id: self.order_id@,
            user_id: self.user_id@,
            side: self.side,
            order_type: self.order_type,
            symbol: self.symbol@,
            price: self.price,
            qty: self.qty,
            filled_qty: self.filled_qty,
            status: self.status,
            fills: fills_view(self.fills@),
        }
    }
}

/// The order records by order id, without timestamps.
pub open spec fn records_view(t: Table<OrderRecord>) -> Map<Seq<char>, OrderRecordView> {
    Map::new(|k: Seq<char>| t@.contains_key(k), |k: Seq<char>| t@[k]@)
}

pub open spec fn other_side(side: OrderSide) -> OrderSide {
    match side {
        OrderSide::Buy => OrderSide::Sell,
        OrderSide::Sell => OrderSide::Buy,
    }
}

/// The fill that event `ev` of the taker order `taker_order_id` in market
/// `symbol` records: the buyer is the taker when the taker buys, else the
/// maker.
pub open spec fn fill_of(ev: FillEvent, taker_order_id: Seq<char>, symbol: Seq<char>) -> FillView {
    let (buy_order_id, buy_user_id, sell_order_id, sell_user_id) = match ev.taker_side {
        OrderSide::Buy => (taker_order_id, ev.taker_user_id@, ev.maker_order_id@, ev.maker_user_id@),
        OrderSide::Sell => (ev.maker_order_id@, ev.maker_user_id@, taker_order_id, ev.taker_user_id@),
    };
    FillView {
        fill_id: ev.fill_id@,
        symbol,
        price: ev.price,
        qty: ev.qty,
        buy_order_id,
        buy_user_id,
        sell_order_id,
        sell_user_id,
    }
}

pub open spec fn fills_of(evs: Seq<FillEvent>, taker_order_id: Seq<char>, symbol: Seq<char>) -> Seq<FillView> {
    evs.map_values(|ev: FillEvent| fill_of(ev, taker_order_id, symbol))
}

/// Law: the fill recorded for an event of the taker order `taker_order_id`
/// in market `symbol` names that market, carries the event's id, price and
/// quantity, and has the taker's order and user on the taker's side and the
/// resting order and its user on the other.
pub proof fn law_fill_records_event(evs: Seq<FillEvent>, taker_order_id: Seq<char>, symbol: Seq<char>)
    ensures
        fills_of(evs, taker_order_id, symbol).len() == evs.len(),
        forall|i: int| #![trigger fills_of(evs, taker_order_id, symbol)[i]] 0 <= i < evs.len() ==> {
            let f = fills_of(evs, taker_order_id, symbol)[i];
            let ev = evs[i];
            &&& f.symbol == symbol
            &&& f.fill_id == ev.fill_id@
            &&& f.price == ev.price
            &&& f.qty == ev.qty
            &&& ev.taker_side == OrderSide::Buy ==> f.buy_order_id == taker_order_id && f.buy_user_id == ev.taker_user_id@
                && f.sell_order_id == ev.maker_order_id@ && f.sell_user_id == ev.maker_user_id@
            &&& ev.taker_side == OrderSide::Sell ==> f.sell_order_id == taker_order_id && f.sell_user_id == ev.taker_user_id@
                && f.buy_order_id == ev.maker_order_id@ && f.buy_user_id == ev.maker_user_id@
        },
{
}

pub open spec fn maker_status(ev: FillEvent) -> OrderStatus {
    if ev.is_maker_fully_filled {
        OrderStatus::Filled
    } else {
        OrderStatus::PartialFilled
    }
}

/// The record of the resting order of `ev` before the event is added: the
/// one in `orders`, or a new one for a limit order on the other side.
pub open spec fn maker_base(orders: Map<Seq<char>, OrderRecordView>, ev: FillEvent, symbol: Seq<char>) -> OrderRecordView {
    if orders.contains_key(ev.maker_order_id@) {
        orders[ev.maker_order_id@]
    } else {
        OrderRecordView {
            order_id: ev.maker_order_id@,
            user_id: ev.maker_user_id@,
            side: other_side(ev.taker_side),
            order_type: OrderType::Limit,
            symbol,
            price: Some(ev.price),
            qty: ev.maker_total_qty,
            filled_qty: 0,
            status: maker_status(ev),
            fills: Seq::empty(),
        }
    }
}

/// The maker records after the events, in order: each event adds its
/// quantity and its fill to the maker's record and sets its status.
pub open spec fn record_makers(orders: Map<Seq<char>, OrderRecordView>, evs: Seq<FillEvent>, taker_order_id: Seq<char>, symbol: Seq<char>) -> Map<Seq<char>, OrderRecordView>
    decreases evs.len(),
{
    if evs.len() == 0 {
        orders
    } else {
        let ev = evs[0];
        let base = maker_base(orders, ev, symbol);
        let updated = OrderRecordView {
            filled_qty: (base.filled_qty + ev.qty) as i64,
            fills: base.fills.push(fill_of(ev, taker_order_id, symbol)),
            status: maker_status(ev),
            ..base
        };
        record_makers(orders.insert(ev.maker_order_id@, updated), evs.drop_first(), taker_order_id, symbol)
    }
}

/// The filled quantity of every recorded order.
pub open spec fn filled_qtys(orders: Map<Seq<char>, OrderRecordView>) -> Map<Seq<char>, int> {
    Map::new(|k: Seq<char>| orders.contains_key(k), |k: Seq<char>| orders[k].filled_qty as int)
}

/// The (resting order id, quantity) of each fill event.
pub open spec fn event_qtys(evs: Seq<FillEvent>) -> Seq<(Seq<char>, int)> {
    evs.map_values(|ev: FillEvent| (ev.maker_order_id@, ev.qty as int))
}

/// Adding each quantity to the filled quantity of its order (an order
/// without a record starting from zero) never leaves the `i64` range.
pub open spec fn fill_qtys_fit(filled: Map<Seq<char>, int>, fills: Seq<(Seq<char>, int)>) -> bool
    decreases fills.len(),
{
    if fills.len() == 0 {
        true
    } else {
        let (k, q) = fills[0];
        let base = if filled.contains_key(k) { filled[k] } else { 0 };
        &&& i64::MIN <= base + q <= i64::MAX
        &&& fill_qtys_fit(filled.insert(k, base + q), fills.drop_first())
    }
}

/// The quantity of the fills altogether.
pub open spec fn views_qty(fs: Seq<FillView>) -> int
    decreases fs.len(),
{
    if fs.len() == 0 {
        0
    } else {
        views_qty(fs.drop_last()) + fs.last().qty
    }
}

/// Every record's filled quantity is what its fills add up to.
pub open spec fn records_consistent(orders: Map<Seq<char>, OrderRecordView>) -> bool {
    forall|k: Seq<char>| #[trigger] orders.contains_key(k) ==> orders[k].filled_qty == views_qty(orders[k].fills)
}

proof fn lemma_views_qty_push(fs: Seq<FillView>, f: FillView)
    ensures
        views_qty(fs.push(f)) == views_qty(fs) + f.qty,
{
    assert(fs.push(f).drop_last() =~= fs);
}

/// The fills recorded for fill events add up to the events' quantities.
pub proof fn lemma_fills_of_qty(evs: Seq<FillEvent>, taker_order_id: Seq<char>, symbol: Seq<char>)
    ensures
        views_qty(fills_of(evs, taker_order_id, symbol)) == event_qty_total(evs),
    decreases evs.len(),
{
    if evs.len() > 0 {
        lemma_fills_of_qty(evs.drop_last(), taker_order_id, symbol);
        assert(fills_of(evs, taker_order_id, symbol).drop_last() =~= fills_of(evs.drop_last(), taker_order_id, symbol));
    }
}

/// The quantity of the fill events altogether.
pub open spec fn event_qty_total(evs: Seq<FillEvent>) -> int
    decreases evs.len(),
{
    if evs.len() == 0 {
        0
    } else {
        event_qty_total(evs.drop_last()) + evs.last().qty
    }
}

/// Recording the events in the makers' records keeps every record's filled
/// quantity equal to what its fills add up to, as long as no filled
/// quantity leaves the `i64` range.
pub proof fn lemma_record_makers_consistent(orders: Map<Seq<char>, OrderRecordView>, evs: Seq<FillEvent>, taker_order_id: Seq<char>, symbol: Seq<char>)
    requires
        records_consistent(orders),
        fill_qtys_fit(filled_qtys(orders), event_qtys(evs)),
    ensures
        records_consistent(record_makers(orders, evs, taker_order_id, symbol)),
    decreases evs.len(),
{
    if evs.len() > 0 {
        let ev = evs[0];
        let base = maker_base(orders, ev, symbol);
        let f = fill_of(ev, taker_order_id, symbol);
        let updated = OrderRecordView {
            filled_qty: (base.filled_qty + ev.qty) as i64,
            fills: base.fills.push(f),
            status: maker_status(ev),
            ..base
        };
        let k = ev.maker_order_id@;
        let o2 = orders.insert(k, updated);
        assert(event_qtys(evs)[0] == (k, ev.qty as int));
        assert(event_qtys(evs).drop_first() =~= event_qtys(evs.drop_first()));
        if !orders.contains_key(k) {
            assert(views_qty(base.fills) == 0);
        }
        lemma_views_qty_push(base.fills, f);
        assert(filled_qtys(o2) =~= filled_qtys(orders).insert(k, base.filled_qty + ev.qty));
        lemma_record_makers_consistent(o2, evs.drop_first(), taker_order_id, symbol);
    }
}

/// Fill `f` names order `id`, as its buying or its selling order.
pub open spec fn names(f: FillView, id: Seq<char>) -> bool {
    f.buy_order_id == id || f.sell_order_id == id
}

/// What the fills of `log` that name order `id` add up to.
pub open spec fn log_qty(log: Seq<FillView>, id: Seq<char>) -> int
    decreases log.len(),
{
    if log.len() == 0 {
        0
    } else {
        (if names(log[0], id) { log[0].qty as int } else { 0 }) + log_qty(log.drop_first(), id)
    }
}

/// Some fill of `log` names order `id`.
pub open spec fn named_in(log: Seq<FillView>, id: Seq<char>) -> bool {
    exists|i: int| 0 <= i < log.len() && #[trigger] names(log[i], id)
}

/// The records agree with the fill log: every record's filled quantity is
/// what the logged fills naming it add up to, and every order that a logged
/// fill names has a record.
pub open spec fn follows_log(orders: Map<Seq<char>, OrderRecordView>, log: Seq<FillView>) -> bool {
    &&& forall|id: Seq<char>| #[trigger] orders.contains_key(id) ==> orders[id].filled_qty == log_qty(log, id)
    &&& forall|id: Seq<char>| #[trigger] named_in(log, id) ==> orders.contains_key(id)
}

proof fn lemma_log_qty_concat(a: Seq<FillView>, b: Seq<FillView>, id: Seq<char>)
    ensures
        log_qty(a + b, id) == log_qty(a, id) + log_qty(b, id),
    decreases a.len(),
{
    if a.len() == 0 {
        assert(a + b =~= b);
    } else {
        assert((a + b).drop_first() =~= a.drop_first() + b);
        assert((a + b)[0] == a[0]);
        lemma_log_qty_concat(a.drop_first(), b, id);
    }
}

proof fn lemma_log_qty_unnamed(log: Seq<FillView>, id: Seq<char>)
    requires
        !named_in(log, id),
    ensures
        log_qty(log, id) == 0,
    decreases log.len(),
{
    if log.len() > 0 {
        assert(!names(log[0], id));
        assert forall|i: int| 0 <= i < log.drop_first().len() implies !#[trigger] names(log.drop_first()[i], id) by {
            assert(log.drop_first()[i] == log[i + 1]);
            assert(!names(log[i + 1], id));
        }
        lemma_log_qty_unnamed(log.drop_first(), id);
    }
}

proof fn lemma_log_qty_single(f: FillView, id: Seq<char>)
    ensures
        log_qty(seq![f], id) == if names(f, id) { f.qty as int } else { 0 },
{
    assert(seq![f].drop_first() =~= Seq::<FillView>::empty());
    assert(seq![f][0] == f);
    assert(log_qty(Seq::<FillView>::empty(), id) == 0);
}

/// The fills recorded for events of the taker `taker_order_id` all name it,
/// and add up to the events' quantities.
proof fn lemma_fills_of_taker_qty(evs: Seq<FillEvent>, taker_order_id: Seq<char>, symbol: Seq<char>)
    ensures
        log_qty(fills_of(evs, taker_order_id, symbol), taker_order_id) == event_qty_total(evs),
    decreases evs.len(),
{
    if evs.len() > 0 {
        let rest = evs.drop_last();
        lemma_fills_of_taker_qty(rest, taker_order_id, symbol);
        let f = fill_of(evs.last(), taker_order_id, symbol);
        assert(fills_of(evs, taker_order_id, symbol) =~= fills_of(rest, taker_order_id, symbol) + seq![f]);
        lemma_log_qty_concat(fills_of(rest, taker_order_id, symbol), seq![f], taker_order_id);
        lemma_log_qty_single(f, taker_order_id);
    }
}

/// What recording the events in the makers' records keeps, for every order
/// but the taker's: filled quantities follow the log, with the new fills
/// appended, and every order it names but the taker's has a record.
proof fn lemma_record_makers_log(
    orders: Map<Seq<char>, OrderRecordView>,
    log: Seq<FillView>,
    evs: Seq<FillEvent>,
    taker_order_id: Seq<char>,
    symbol: Seq<char>,
)
    requires
        forall|id: Seq<char>| #[trigger] orders.contains_key(id) ==> orders[id].filled_qty == log_qty(log, id),
        forall|id: Seq<char>| id != taker_order_id && #[trigger] named_in(log, id) ==> orders.contains_key(id),
        !orders.contains_key(taker_order_id),
        forall|i: int| 0 <= i < evs.len() ==> #[trigger] evs[i].maker_order_id@ != taker_order_id,
        fill_qtys_fit(filled_qtys(orders), event_qtys(evs)),
    ensures
        ({
            let o2 = record_makers(orders, evs, taker_order_id, symbol);
            let l2 = log + fills_of(evs, taker_order_id, symbol);
            &&& forall|id: Seq<char>| #[trigger] o2.contains_key(id) ==> o2[id].filled_qty == log_qty(l2, id)
            &&& forall|id: Seq<char>| id != taker_order_id && #[trigger] named_in(l2, id) ==> o2.contains_key(id)
            &&& !o2.contains_key(taker_order_id)
        }),
    decreases evs.len(),
{
    let l2 = log + fills_of(evs, taker_order_id, symbol);
    if evs.len() == 0 {
        assert(l2 =~= log);
    } else {
        let ev = evs[0];
        let k = ev.maker_order_id@;
        let base = maker_base(orders, ev, symbol);
        let f = fill_of(ev, taker_order_id, symbol);
        let updated = OrderRecordView {
            filled_qty: (base.filled_qty + ev.qty) as i64,
            fills: base.fills.push(f),
            status: maker_status(ev),
            ..base
        };
        let o1 = orders.insert(k, updated);
        let l1 = log + seq![f];
        let rest = evs.drop_first();
        assert(event_qtys(evs)[0] == (k, ev.qty as int));
        assert(event_qtys(evs).drop_first() =~= event_qtys(rest));
        assert(filled_qtys(o1) =~= filled_qtys(orders).insert(k, base.filled_qty + ev.qty));
        assert(k != taker_order_id);
        assert(names(f, k) && names(f, taker_order_id));
        assert forall|id: Seq<char>| #[trigger] log_qty(l1, id) == log_qty(log, id) + if names(f, id) { f.qty as int } else { 0 } by {
            lemma_log_qty_concat(log, seq![f], id);
            lemma_log_qty_single(f, id);
        }
        if !orders.contains_key(k) {
            if named_in(log, k) {
                assert(orders.contains_key(k));
            }
            lemma_log_qty_unnamed(log, k);
        }
        assert forall|id: Seq<char>| #[trigger] o1.contains_key(id) implies o1[id].filled_qty == log_qty(l1, id) by {
            if id != k {
                assert(!names(f, id));
                assert(log_qty(l1, id) == log_qty(log, id));
            }
        }
        assert forall|id: Seq<char>| id != taker_order_id && #[trigger] named_in(l1, id) implies o1.contains_key(id) by {
            let i = choose|i: int| 0 <= i < l1.len() && #[trigger] names(l1[i], id);
            if i < log.len() {
                assert(l1[i] == log[i]);
                assert(named_in(log, id));
            } else {
                assert(l1[i] == f);
            }
        }
        assert forall|i: int| 0 <= i < rest.len() implies #[trigger] rest[i].maker_order_id@ != taker_order_id by {
            assert(rest[i] == evs[i + 1]);
        }
        lemma_record_makers_log(o1, l1, rest, taker_order_id, symbol);
        assert(fills_of(evs, taker_order_id, symbol) =~= seq![f] + fills_of(rest, taker_order_id, symbol));
        assert(l1 + fills_of(rest, taker_order_id, symbol) =~= l2);
    }
}

/// Law: recording a match keeps the order records in agreement with the
/// fill log (`follows_log`), when the taker's order is new (it has no
/// record and is no resting order of the match) and its filled quantity is
/// what its fill events add up to. `record_match` leaves the records as
/// `record_makers(..).insert(taker_order_id, taker)` and the log as the old
/// log followed by `fills_of(..)`, the two sides of this law.
pub proof fn law_record_match_follows_log(
    orders: Map<Seq<char>, OrderRecordView>,
    log: Seq<FillView>,
    evs: Seq<FillEvent>,
    taker_order_id: Seq<char>,
    symbol: Seq<char>,
    taker: OrderRecordView,
)
    requires
        follows_log(orders, log),
        !orders.contains_key(taker_order_id),
        forall|i: int| 0 <= i < evs.len() ==> #[trigger] evs[i].maker_order_id@ != taker_order_id,
        fill_qtys_fit(filled_qtys(orders), event_qtys(evs)),
        taker.filled_qty == event_qty_total(evs),
    ensures
        follows_log(
            record_makers(orders, evs, taker_order_id, symbol).insert(taker_order_id, taker),
            log + fills_of(evs, taker_order_id, symbol),
        ),
{
    let new_fills = fills_of(evs, taker_order_id, symbol);
    let l2 = log + new_fills;
    lemma_record_makers_log(orders, log, evs, taker_order_id, symbol);
    if named_in(log, taker_order_id) {
        assert(orders.contains_key(taker_order_id));
    }
    lemma_log_qty_unnamed(log, taker_order_id);
    lemma_log_qty_concat(log, new_fills, taker_order_id);
    lemma_fills_of_taker_qty(evs, taker_order_id, symbol);
}

/// The fills of `log` (one for each event of `evs`, in the same order) that
/// record a trade with the resting order `k`, in order.
pub open spec fn fills_for(evs: Seq<FillEvent>, log: Seq<Fill>, k: Seq<char>) -> Seq<Fill>
    decreases evs.len(),
{
    if evs.len() == 0 {
        Seq::empty()
    } else {
        let rest = fills_for(evs.drop_last(), log.drop_last(), k);
        if evs.last().maker_order_id@ == k {
            rest.push(log.last())
        } else {
            rest
        }
    }
}

/// Some event of `evs` traded with the resting order `k`.
pub open spec fn trades_with(evs: Seq<FillEvent>, k: Seq<char>) -> bool {
    exists|j: int| 0 <= j < evs.len() && #[trigger] evs[j].maker_order_id@ == k
}

/// The fills that a record held before a match: those of the stored record
/// `k`, or none.
pub open spec fn fills_before(orders: Map<Seq<char>, OrderRecord>, k: Seq<char>) -> Seq<Fill> {
    if orders.contains_key(k) {
        orders[k].fills@
    } else {
        Seq::empty()
    }
}

impl Store {
    /// Records a match of the taker order `taker_order_id`: every fill is
    /// appended to the store's fills, to the taker's record and to the
    /// record of the resting order it traded with (created, as a limit order
    /// on the other side, if the store has none), whose filled quantity grows
    /// by the fill and whose status becomes filled or partially filled; then
    /// the taker's record (with the requested price, `total_qty`, the match's
    /// filled quantity, final status and fills) is stored under its id.
    pub fn record_match(
        &mut self,
        taker_user_id: &str,
        taker_order_id: String,
        symbol: &str,
        side: OrderSide,
        order_type: OrderType,
        total_qty: i64,
        match_result: &MatchResult,
    )
        requires
            old(self).orders.wf(),
            fill_qtys_fit(filled_qtys(records_view(old(self).orders)), event_qtys(match_result.fills@)),
        ensures
            final(self).orders.wf(),
            records_view(final(self).orders) == record_makers(
                records_view(old(self).orders),
                match_result.fills@,
                taker_order_id@,
                symbol@,
            ).insert(
                taker_order_id@,
                OrderRecordView {
                    order_id: taker_order_id@,
                    user_id: taker_user_id@,
                    side,
                    order_type,
                    symbol: symbol@,
                    price: Some(match_result.requested_price),
                    qty: total_qty,
                    filled_qty: match_result.filled_qty,
                    status: match_result.taker_final_status,
                    fills: fills_of(match_result.fills@, taker_order_id@, symbol@),
                },
            ),
            fills_view(final(self).fills@) == fills_view(old(self).fills@) + fills_of(
                match_result.fills@,
                taker_order_id@,
                symbol@,
            ),
            final(self).balances == old(self).balances,
            final(self).orderbooks == old(self).orderbooks,
            final(self).fills@.len() == old(self).fills@.len() + match_result.fills@.len(),
            forall|i: int| #![trigger match_result.fills@[i]] 0 <= i < match_result.fills@.len() ==> {
                let f = final(self).fills@[old(self).fills@.len() + i];
                let ev = match_result.fills@[i];
                &&& f.symbol@ == symbol@
                &&& f.fill_id@ == ev.fill_id@
                &&& f.price == ev.price
                &&& f.qty == ev.qty
                &&& ev.taker_side == OrderSide::Buy ==> f.buy_order_id@ == taker_order_id@ && f.buy_user_id@ == ev.taker_user_id@
                    && f.sell_order_id@ == ev.maker_order_id@ && f.sell_user_id@ == ev.maker_user_id@
                &&& ev.taker_side == OrderSide::Sell ==> f.sell_order_id@ == taker_order_id@ && f.sell_user_id@ == ev.taker_user_id@
                    && f.buy_order_id@ == ev.maker_order_id@ && f.buy_user_id@ == ev.maker_user_id@
            },
            final(self).fills@.subrange(0, old(self).fills@.len() as int) == old(self).fills@,
            final(self).orders@[taker_order_id@].fills@ == final(self).fills@.subrange(
                old(self).fills@.len() as int,
                final(self).fills@.len() as int,
            ),
            forall|k: Seq<char>|
                #![trigger final(self).orders@[k]]
                old(self).orders@.contains_key(k) && k != taker_order_id@ && !trades_with(match_result.fills@, k)
                    ==> final(self).orders@[k] == old(self).orders@[k],
            forall|k: Seq<char>|
                #![trigger final(self).orders@[k]]
                old(self).orders@.contains_key(k) && k != taker_order_id@
                    ==> final(self).orders@[k].created_at == old(self).orders@[k].created_at,
            follows_log(records_view(old(self).orders), fills_view(old(self).fills@))
                && !old(self).orders@.contains_key(taker_order_id@)
                && (forall|i: int| 0 <= i < match_result.fills@.len() ==> #[trigger] match_result.fills@[i].maker_order_id@ != taker_order_id@)
                && match_result.filled_qty == event_qty_total(match_result.fills@)
                ==> follows_log(records_view(final(self).orders), fills_view(final(self).fills@)),
            forall|k: Seq<char>|
                #![trigger final(self).orders@[k]]
                final(self).orders@.contains_key(k) && k != taker_order_id@ ==> final(self).orders@[k].fills@
                    == fills_before(old(self).orders@, k) + fills_for(
                    match_result.fills@,
                    final(self).fills@.subrange(old(self).fills@.len() as int, final(self).fills@.len() as int),
                    k,
                ),
    {
        let fills = &match_result.fills;
        let mut taker_record = OrderRecord {
            order_id: taker_order_id,
            user_id: taker_user_id.to_owned(),
            side,
            order_type,
            symbol: symbol.to_owned(),
            price: Some(match_result.requested_price),
            qty: total_qty,
            filled_qty: match_result.filled_qty,
            status: match_result.taker_final_status,
            fills: Vec::new(),
            created_at: now_millis(),
        };
        let ghost tid = taker_record.order_id@;
        let ghost evs = fills@;
        let ghost target = record_makers(records_view(self.orders), evs, tid, symbol@);
        let ghost l0 = self.fills@.len() as int;
        let ghost orders0 = self.orders@;
        let n = fills.len();
        let mut i: usize = 0;
        proof {
            assert(evs.subrange(0, n as int) =~= evs);
            assert(fills_of(evs.subrange(0, 0), tid, symbol@) =~= Seq::<FillView>::empty());
            assert(fills_view(taker_record.fills@) =~= Seq::<FillView>::empty());
            assert(fills_view(self.fills@) =~= fills_view(old(self).fills@) + Seq::<FillView>::empty());
            assert(self.fills@.subrange(0, l0) =~= old(self).fills@);
            assert(taker_record.fills@ =~= self.fills@.subrange(l0, l0));
            assert forall|k: Seq<char>| #[trigger] self.orders@.contains_key(k) implies self.orders@[k].fills@
                == fills_before(orders0, k) + fills_for(evs.subrange(0, 0), self.fills@.subrange(l0, l0), k) by {
                assert(self.orders@[k].fills@ =~= fills_before(orders0, k) + Seq::<Fill>::empty());
            }
        }
        while i < n
            invariant
                n == evs.len(),
                i <= n,
                fills@ == evs,
                taker_record.order_id@ == tid,
                self.orders.wf(),
                record_makers(records_view(self.orders), evs.subrange(i as int, n as int), tid, symbol@) == target,
                fill_qtys_fit(filled_qtys(records_view(self.orders)), event_qtys(evs.subrange(i as int, n as int))),
                fills_view(taker_record.fills@) == fills_of(evs.subrange(0, i as int), tid, symbol@),
                fills_view(self.fills@) == fills_view(old(self).fills@) + fills_of(evs.subrange(0, i as int), tid, symbol@),
                self.balances == old(self).balances,
                self.orderbooks == old(self).orderbooks,
                orders0 == old(self).orders@,
                l0 == old(self).fills@.len(),
                self.fills@.len() == l0 + i,
                self.fills@.subrange(0, l0) == old(self).fills@,
                taker_record.fills@ == self.fills@.subrange(l0, l0 + i),
                forall|k: Seq<char>|
                    #![trigger self.orders@[k]]
                    orders0.contains_key(k) && !trades_with(evs.subrange(0, i as int), k)
                        ==> self.orders@.contains_key(k) && self.orders@[k] == orders0[k],
                forall|k: Seq<char>|
                    #![trigger self.orders@[k]]
                    orders0.contains_key(k) ==> self.orders@.contains_key(k) && self.orders@[k].created_at == orders0[k].created_at,
                forall|k: Seq<char>|
                    #![trigger self.orders@[k]]
                    self.orders@.contains_key(k) ==> self.orders@[k].fills@ == fills_before(orders0, k) + fills_for(
                        evs.subrange(0, i as int),
                        self.fills@.subrange(l0, l0 + i),
                        k,
                    ),
                forall|k: Seq<char>|
                    #[trigger] self.orders@.contains_key(k) || (fills_for(evs.subrange(0, i as int), self.fills@.subrange(l0, l0 + i), k)
                        == Seq::<Fill>::empty() && !orders0.contains_key(k)),
                taker_record.user_id@ == taker_user_id@,
                taker_record.side == side,
                taker_record.order_type == order_type,
                taker_record.symbol@ == symbol@,
                taker_record.price == Some(match_result.requested_price),
                taker_record.qty == total_qty,
                taker_record.filled_qty == match_result.filled_qty,
                taker_record.status == match_result.taker_final_status,
            decreases n - i,
        {
            let event = &fills[i];
            let ghost rest = evs.subrange(i as int, n as int);
            let ghost orders_before = records_view(self.orders);
            let ghost table_before = self.orders@;
            let ghost log_before = self.fills@;
            proof {
                assert(rest[0] == evs[i as int]);
                assert(rest.drop_first() =~= evs.subrange(i + 1, n as int));
                assert(event_qtys(rest).drop_first() =~= event_qtys(rest.drop_first()));
                assert(event_qtys(rest)[0] == (evs[i as int].maker_order_id@, evs[i as int].qty as int));
            }
            let (buy_order_id, buy_user_id, sell_order_id, sell_user_id, maker_side) = match event.taker_side {
                OrderSide::Buy => (
                    taker_record.order_id.clone(),
                    event.taker_user_id.clone(),
                    event.maker_order_id.clone(),
                    event.maker_user_id.clone(),
                    OrderSide::Sell,
                ),
                OrderSide::Sell => (
                    event.maker_order_id.clone(),
                    event.maker_user_id.clone(),
                    taker_record.order_id.clone(),
                    event.taker_user_id.clone(),
                    OrderSide::Buy,
                ),
            };
            let fill = Fill {
                fill_id: event.fill_id.clone(),
                symbol: symbol.to_owned(),
                price: event.price,
                qty: event.qty,
                buy_order_id,
                buy_user_id,
                sell_order_id,
                sell_user_id,
                created_at: now_millis(),
            };
            assert(fill@ == fill_of(*event, tid, symbol@));
            let ghost taker_fills_before = taker_record.fills@;
            taker_record.fills.push(fill.clone());
            let fresh = OrderRecord {
                order_id: event.maker_order_id.clone(),
                user_id: event.maker_user_id.clone(),
                side: maker_side,
                order_type: OrderType::Limit,
                symbol: symbol.to_owned(),
                price: Some(event.price),
                qty: event.maker_total_qty,
                filled_qty: 0,
                status: if event.is_maker_fully_filled {
                    OrderStatus::Filled
                } else {
                    OrderStatus::PartialFilled
                },
                fills: Vec::new(),
                created_at: now_millis(),
            };
            let ghost mk = event.maker_order_id@;
            let resting_order_record = self.orders.get_mut_or_insert(&event.maker_order_id, fresh);
            let ghost base = *resting_order_record;
            proof {
                assert(base@ == maker_base(orders_before, *event, symbol@)) by {
                    if !orders_before.contains_key(mk) {
                        assert(fills_view(base.fills@) =~= Seq::<FillView>::empty());
                    }
                }
            }
            resting_order_record.filled_qty = resting_order_record.filled_qty + event.qty;
            resting_order_record.fills.push(fill.clone());
            resting_order_record.status = if event.is_maker_fully_filled {
                OrderStatus::Filled
            } else {
                OrderStatus::PartialFilled
            };
            let ghost updated = *resting_order_record;
            proof {
                assert(fills_view(updated.fills@) =~= fills_view(base.fills@).push(fill@));
            }
            self.fills.push(fill);
            proof {
                assert(self.orders@ == table_before.insert(mk, updated));
                assert(records_view(self.orders) =~= orders_before.insert(mk, updated@));
                assert(filled_qtys(records_view(self.orders)) =~= filled_qtys(orders_before).insert(
                    mk,
                    base.filled_qty + event.qty,
                ));
                let done = evs.subrange(0, i as int);
                let done2 = evs.subrange(0, i + 1);
                assert(done2 =~= done.push(evs[i as int]));
                assert(fills_of(done2, tid, symbol@) =~= fills_of(done, tid, symbol@).push(fill@));
                assert(fills_view(taker_record.fills@) =~= fills_view(taker_fills_before).push(fill@));
                assert(fills_view(self.fills@) =~= fills_view(log_before).push(fill@));
                assert(fills_view(self.fills@) =~= fills_view(old(self).fills@) + fills_of(done2, tid, symbol@));
                let new0 = log_before.subrange(l0, l0 + i);
                let new1 = self.fills@.subrange(l0, l0 + i + 1);
                assert(new1 =~= new0.push(fill));
                assert(self.fills@.subrange(0, l0) =~= log_before.subrange(0, l0));
                assert(taker_record.fills@ =~= new1);
                assert(done2.drop_last() =~= done);
                assert(new1.drop_last() =~= new0);
                assert(done2.last() == *event);
                assert(new1.last() == fill);
                assert forall|k: Seq<char>|
                    orders0.contains_key(k) && !trades_with(done2, k) implies #[trigger] self.orders@.contains_key(k)
                        && self.orders@[k] == orders0[k] by {
                    assert(done2[i as int].maker_order_id@ == mk);
                    if trades_with(done, k) {
                        let j = choose|j: int| 0 <= j < done.len() && #[trigger] done[j].maker_order_id@ == k;
                        assert(done2[j] == done[j]);
                    }
                    assert(table_before.contains_key(k) && table_before[k] == orders0[k]);
                }
                assert forall|k: Seq<char>| #[trigger] self.orders@.contains_key(k) implies self.orders@[k].fills@
                    == fills_before(orders0, k) + fills_for(done2, new1, k) by {
                    assert(fills_for(done2, new1, k) == if mk == k {
                        fills_for(done, new0, k).push(fill)
                    } else {
                        fills_for(done, new0, k)
                    });
                    if k == mk {
                        assert(updated.fills@ =~= base.fills@.push(fill));
                        if table_before.contains_key(k) {
                            assert(base == table_before[k]);
                        } else {
                            assert(base.fills@ =~= Seq::<Fill>::empty());
                        }
                        assert(self.orders@[k].fills@ =~= fills_before(orders0, k) + fills_for(done, new0, k).push(fill));
                    } else {
                        assert(table_before.contains_key(k));
                    }
                }
                assert forall|k: Seq<char>|
                    #[trigger] self.orders@.contains_key(k) || (fills_for(done2, new1, k) == Seq::<Fill>::empty() && !orders0.contains_key(k)) by {
                    if !self.orders@.contains_key(k) {
                        assert(!table_before.contains_key(k));
                        assert(k != mk);
                    }
                }
            }
            i = i + 1;
        }
        proof {
            assert(evs.subrange(n as int, n as int).len() == 0);
            assert(evs.subrange(0, n as int) =~= evs);
        }
        let ghost before_insert = records_view(self.orders);
        let ghost table_before = self.orders@;
        let ghost taker_view = taker_record@;
        let ghost taker_full = taker_record;
        self.orders.insert(taker_record.order_id.clone(), taker_record);
        proof {
            assert(records_view(self.orders) =~= before_insert.insert(tid, taker_view));
            assert(self.orders@ == table_before.insert(tid, taker_full));
            assert forall|j: int| #![trigger evs[j]] 0 <= j < evs.len() implies self.fills@[l0 + j]@ == fill_of(evs[j], tid, symbol@) by {
                assert(fills_view(self.fills@)[l0 + j] == self.fills@[l0 + j]@);
                assert((fills_view(old(self).fills@) + fills_of(evs, tid, symbol@))[l0 + j] == fills_of(evs, tid, symbol@)[j]);
            }
            if follows_log(records_view(old(self).orders), fills_view(old(self).fills@))
                && !old(self).orders@.contains_key(tid)
                && (forall|i: int| 0 <= i < evs.len() ==> #[trigger] evs[i].maker_order_id@ != tid)
                && match_result.filled_qty == event_qty_total(evs) {
                assert(!records_view(old(self).orders).contains_key(tid));
                law_record_match_follows_log(records_view(old(self).orders), fills_view(old(self).fills@), evs, tid, symbol@, taker_view);
            }
        }
    }

    /// Whether `record_match` can record `match_result`: whether adding the
    /// quantities of its fill events to the filled quantities of the resting
    /// orders' records stays in the `i64` range.
    pub fn record_match_fits(&self, match_result: &MatchResult) -> (b: bool)
        requires
            self.orders.wf(),
        ensures
            b == fill_qtys_fit(filled_qtys(records_view(self.orders)), event_qtys(match_result.fills@)),
    {
        let fills = &match_result.fills;
        let ghost filled0 = filled_qtys(records_view(self.orders));
        let ghost pairs = event_qtys(fills@);
        let mut scratch: Table<i64> = Table::new();
        let ghost mut cur: Map<Seq<char>, int> = filled0;
        let n = fills.len();
        let mut i: usize = 0;
        proof {
            assert(pairs.subrange(0, n as int) =~= pairs);
        }
        while i < n
            invariant
                self.orders.wf(),
                n == fills@.len(),
                fills@ == match_result.fills@,
                pairs == event_qtys(fills@),
                i <= n,
                scratch.wf(),
                filled0 == filled_qtys(records_view(self.orders)),
                forall|k: Seq<char>| #[trigger] cur.contains_key(k) <==> (scratch@.contains_key(k) || filled0.contains_key(k)),
                forall|k: Seq<char>| #[trigger] cur.contains_key(k) ==> cur[k] == if scratch@.contains_key(k) {
                    scratch@[k] as int
                } else {
                    filled0[k]
                },
                fill_qtys_fit(filled0, pairs) == fill_qtys_fit(cur, pairs.subrange(i as int, n as int)),
            decreases n - i,
        {
            let ghost rest = pairs.subrange(i as int, n as int);
            proof {
                assert(rest[0] == pairs[i as int]);
                assert(pairs[i as int] == (fills@[i as int].maker_order_id@, fills@[i as int].qty as int));
                assert(rest.drop_first() =~= pairs.subrange(i + 1, n as int));
            }
            let k = &fills[i].maker_order_id;
            let q = fills[i].qty;
            let base: i64 = match scratch.get(k) {
                Some(v) => *v,
                None => match self.orders.get(k) {
                    Some(rec) => rec.filled_qty,
                    None => 0,
                },
            };
            proof {
                if self.orders@.contains_key(k@) {
                    assert(filled0.contains_key(k@));
                    assert(filled0[k@] == self.orders@[k@].filled_qty);
                }
                assert(cur.contains_key(k@) ==> base == cur[k@]);
                assert(!cur.contains_key(k@) ==> base == 0);
            }
            let next = match base.checked_add(q) {
                Some(v) => v,
                None => {
                    return false;
                },
            };
            scratch.insert(k.clone(), next);
            proof {
                cur = cur.insert(k@, next as int);
            }
            i = i + 1;
        }
        proof {
            assert(pairs.subrange(n as int, n as int).len() == 0);
        }
        true
    }
}

} // verus!
