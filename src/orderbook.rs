use vstd::prelude::*;

use crate::types::{now_millis, Order, OrderBookLevel, OrderBookSnapshot, OrderStatus, OrderType, Side, Trade};

verus! {

/// The orders resting at one price, oldest first.
#[derive(Debug, Clone)]
pub struct PriceLevel {
    pub price: u64,
    pub orders: Vec<Order>,
}

/// A ladder as plain values: each level's price and its queue.
pub type Ladder = Seq<(u64, Seq<Order>)>;

pub open spec fn ladder_of(v: Seq<PriceLevel>) -> Ladder {
    v.map_values(|l: PriceLevel| (l.price, l.orders@))
}

/// `a` ranks strictly ahead of `b` on a ladder of `side`: higher for bids,
/// lower for asks.
pub open spec fn better(side: Side, a: u64, b: u64) -> bool {
    match side {
        Side::Buy => a > b,
        Side::Sell => a < b,
    }
}

/// An aggressor of `side` with limit `limit` may trade at resting price `p`.
pub open spec fn crosses(side: Side, limit: u64, p: u64) -> bool {
    match side {
        Side::Buy => p <= limit,
        Side::Sell => p >= limit,
    }
}

/// The price limit that an order matches with: a market order reaches every
/// price (no cap for a buy, a floor of zero for a sell); any other order its
/// own limit price.
pub open spec fn effective_limit(o: Order) -> u64 {
    if o.order_type == OrderType::Market {
        match o.side {
            Side::Buy => u64::MAX,
            Side::Sell => 0,
        }
    } else {
        o.price
    }
}

/// An order's status agrees with what is filled: `Filled` exactly when
/// nothing is left, `PartiallyFilled` exactly when some but not all is.
pub open spec fn status_law(o: Order) -> bool {
    &&& (o.filled_quantity == o.quantity <==> o.status == OrderStatus::Filled)
    &&& (0 < o.filled_quantity < o.quantity <==> o.status == OrderStatus::PartiallyFilled)
}

pub open spec fn resting_ok(o: Order, side: Side, price: u64) -> bool {
    &&& o.side == side
    &&& o.price == price
    &&& o.valid()
    &&& o.remaining() > 0
    &&& status_law(o)
}

/// Levels in priority order with distinct prices, no empty queue, and every
/// queued order live, on this side, at its level's price, and with a status
/// that agrees with its fill.
pub open spec fn ladder_wf(l: Ladder, side: Side) -> bool {
    &&& forall|i: int, j: int| 0 <= i < j < l.len() ==> better(side, #[trigger] l[i].0, #[trigger] l[j].0)
    &&& forall|i: int| 0 <= i < l.len() ==> (#[trigger] l[i]).1.len() > 0
    &&& forall|i: int, k: int|
        0 <= i < l.len() && 0 <= k < l[i].1.len() ==> resting_ok(#[trigger] l[i].1[k], side, l[i].0)
}

/// All queued orders of a ladder in the order in which they would be matched.
pub open spec fn flatten(l: Ladder) -> Seq<Order>
    decreases l.len(),
{
    if l.len() == 0 {
        Seq::empty()
    } else {
        l[0].1 + flatten(l.drop_first())
    }
}

pub open spec fn min_int(a: int, b: int) -> int {
    if a <= b { a } else { b }
}

/// The fills that an aggressor of `side` with limit `limit` and `want` units
/// left takes from the queue `q` (in matching order): each is the resting
/// order as it stood and the quantity taken from it.
pub open spec fn fills(q: Seq<Order>, side: Side, limit: u64, want: int) -> Seq<(Order, int)>
    decreases q.len(),
{
    if want <= 0 || q.len() == 0 || !crosses(side, limit, q[0].price) {
        Seq::empty()
    } else {
        let x = min_int(want, q[0].remaining());
        seq![(q[0], x)] + fills(q.drop_first(), side, limit, want - x)
    }
}

pub open spec fn with_filled(o: Order, f: int) -> Order {
    Order { filled_quantity: f as u64, ..o }
}

/// A resting order after a fill that leaves part of it: filled to `f` and
/// marked partially filled.
pub open spec fn partly_filled(o: Order, f: int) -> Order {
    Order { filled_quantity: f as u64, status: OrderStatus::PartiallyFilled, ..o }
}

/// The queue `q` once those fills are taken.
pub open spec fn after_fills(q: Seq<Order>, side: Side, limit: u64, want: int) -> Seq<Order>
    decreases q.len(),
{
    if want <= 0 || q.len() == 0 || !crosses(side, limit, q[0].price) {
        q
    } else if want >= q[0].remaining() {
        after_fills(q.drop_first(), side, limit, want - q[0].remaining())
    } else {
        seq![partly_filled(q[0], q[0].filled_quantity + want)] + q.drop_first()
    }
}

/// The summed quantity of a sequence of fills.
pub open spec fn fill_total(f: Seq<(Order, int)>) -> int
    decreases f.len(),
{
    if f.len() == 0 {
        0
    } else {
        fill_total(f.drop_last()) + f.last().1
    }
}

/// Trade `t` records fill `f` of `aggressor` on the book of `symbol`, at the
/// resting order's price, with the ids on their sides.
pub open spec fn records_fill(t: Trade, f: (Order, int), aggressor: Order, symbol: Seq<char>) -> bool {
    &&& t.symbol@ == symbol
    &&& t.price == f.0.price
    &&& t.quantity == f.1
    &&& aggressor.side == Side::Buy ==> t.buy_order_id == aggressor.id && t.sell_order_id == f.0.id
    &&& aggressor.side == Side::Sell ==> t.sell_order_id == aggressor.id && t.buy_order_id == f.0.id
}

/// Where a new level at price `p` goes on a ladder of `side`: after every
/// level that ranks ahead of `p`.
pub open spec fn insert_pos(l: Ladder, side: Side, p: u64) -> int
    decreases l.len(),
{
    if l.len() == 0 || !better(side, l[0].0, p) {
        0
    } else {
        1 + insert_pos(l.drop_first(), side, p)
    }
}

/// The ladder with `o` appended to the queue at its price, the level created
/// in its place if missing.
pub open spec fn ladder_add(l: Ladder, side: Side, o: Order) -> Ladder {
    let i = insert_pos(l, side, o.price);
    if i < l.len() && l[i].0 == o.price {
        l.update(i, (o.price, l[i].1.push(o)))
    } else {
        l.insert(i, (o.price, seq![o]))
    }
}

/// What matching `o` against the ladder `before` gives: the trades record the
/// fills one for one, `o2` is `o` with their total added to its filled
/// quantity, and `after` is what is left of the queue. When `o2` is still
/// live no level of `after` is within its limit, and only levels at the front
/// of `before` have gone.
pub open spec fn match_outcome(
    before: Ladder,
    after: Ladder,
    o: Order,
    o2: Order,
    trades: Seq<Trade>,
    symbol: Seq<char>,
) -> bool {
    let f = fills(flatten(before), o.side, effective_limit(o), o.remaining());
    &&& trades.len() == f.len()
    &&& forall|k: int| 0 <= k < f.len() ==> records_fill(#[trigger] trades[k], f[k], o, symbol)
    &&& o2 == with_filled(o, o.filled_quantity + fill_total(f))
    &&& flatten(after) == after_fills(flatten(before), o.side, effective_limit(o), o.remaining())
    &&& o2.remaining() > 0 ==> forall|i: int| 0 <= i < after.len() ==> !crosses(o.side, effective_limit(o), #[trigger] after[i].0)
    &&& after.len() <= before.len()
    &&& forall|i: int| 0 <= i < after.len() ==> (#[trigger] after[i]).0 == before[i + before.len() - after.len()].0
}

proof fn lemma_flatten_front(l: Ladder, q2: Seq<Order>)
    requires
        l.len() > 0,
    ensures
        flatten(l) == l[0].1 + flatten(l.drop_first()),
        flatten(l.update(0, (l[0].0, q2))) == q2 + flatten(l.drop_first()),
{
    assert(l.update(0, (l[0].0, q2)).drop_first() =~= l.drop_first());
}

/// `(i, j)` is the first place on `l` of an order with id `id`, scanning the
/// levels in priority order and each queue oldest first.
pub open spec fn first_at(l: Ladder, id: u128, i: int, j: int) -> bool {
    &&& 0 <= i < l.len()
    &&& 0 <= j < l[i].1.len()
    &&& l[i].1[j].id == id
    &&& forall|a: int, b: int| 0 <= a < i && 0 <= b < l[a].1.len() ==> (#[trigger] l[a].1[b]).id != id
    &&& forall|b: int| 0 <= b < j ==> (#[trigger] l[i].1[b]).id != id
}

/// Some order on `l` has id `id`.
pub open spec fn holds_id(l: Ladder, id: u128) -> bool {
    exists|i: int, j: int| 0 <= i < l.len() && 0 <= j < l[i].1.len() && (#[trigger] l[i].1[j]).id == id
}

/// `l` without the order at `(i, j)`, its level pruned if that empties it.
pub open spec fn ladder_remove(l: Ladder, i: int, j: int) -> Ladder {
    if l[i].1.len() == 1 {
        l.remove(i)
    } else {
        l.update(i, (l[i].0, l[i].1.remove(j)))
    }
}

/// The summed remaining quantity of a queue.
pub open spec fn queue_total(q: Seq<Order>) -> int
    decreases q.len(),
{
    if q.len() == 0 {
        0
    } else {
        queue_total(q.drop_last()) + q.last().remaining()
    }
}

/// The first `n` levels of `l` (all of them if fewer), each as its price and
/// its queue's summed remaining quantity.
pub open spec fn summary(l: Ladder, n: int) -> Seq<OrderBookLevel> {
    Seq::new(
        min_int(n, l.len() as int) as nat,
        |i: int| OrderBookLevel { price: l[i].0, quantity: queue_total(l[i].1) as u128 },
    )
}

/// The number of levels per side that a snapshot holds.
pub const SNAPSHOT_DEPTH: usize = 20;

/// The summed quantity of a sequence of trades.
pub open spec fn trade_total(t: Seq<Trade>) -> int
    decreases t.len(),
{
    if t.len() == 0 {
        0
    } else {
        trade_total(t.drop_last()) + t.last().quantity
    }
}

/// No two orders on `l` share the id `id`.
pub open spec fn id_unique(l: Ladder, id: u128) -> bool {
    forall|i: int, j: int, a: int, b: int|
        0 <= i < l.len() && 0 <= j < l[i].1.len() && 0 <= a < l.len() && 0 <= b < l[a].1.len() && (#[trigger] l[i].1[j]).id
            == id && (#[trigger] l[a].1[b]).id == id ==> i == a && j == b
}

proof fn lemma_queue_total_front(q: Seq<Order>)
    requires
        q.len() > 0,
    ensures
        queue_total(q) == q[0].remaining() + queue_total(q.drop_first()),
    decreases q.len(),
{
    if q.len() > 1 {
        lemma_queue_total_front(q.drop_last());
        assert(q.drop_last().drop_first() =~= q.drop_first().drop_last());
        assert(q.drop_first().last() == q.last());
        assert(q.drop_last()[0] == q[0]);
    } else {
        assert(q.drop_last().len() == 0);
        assert(q.drop_first().len() == 0);
        assert(queue_total(q.drop_last()) == 0);
        assert(queue_total(q.drop_first()) == 0);
        assert(q.last() == q[0]);
    }
}

proof fn lemma_fill_total_front(f: Seq<(Order, int)>)
    requires
        f.len() > 0,
    ensures
        fill_total(f) == f[0].1 + fill_total(f.drop_first()),
    decreases f.len(),
{
    if f.len() > 1 {
        lemma_fill_total_front(f.drop_last());
        assert(f.drop_last().drop_first() =~= f.drop_first().drop_last());
        assert(f.drop_first().last() == f.last());
        assert(f.drop_last()[0] == f[0]);
    } else {
        assert(f.drop_last().len() == 0);
        assert(f.drop_first().len() == 0);
        assert(fill_total(f.drop_last()) == 0);
        assert(fill_total(f.drop_first()) == 0);
        assert(f.last() == f[0]);
    }
}

/// The fills of a match take a prefix of the queue, in order, and fill every
/// order of that prefix but the last one completely.
proof fn lemma_fills_prefix(q: Seq<Order>, side: Side, limit: u64, want: int)
    ensures
        fills(q, side, limit, want).len() <= q.len(),
        fills(q, side, limit, want).len() > 0 ==> want > 0,
        forall|k: int| 0 <= k < fills(q, side, limit, want).len() ==> (#[trigger] fills(q, side, limit, want)[k]).0 == q[k],
        forall|k: int|
            0 <= k < fills(q, side, limit, want).len() - 1 ==> (#[trigger] fills(q, side, limit, want)[k]).1
                == q[k].remaining(),
    decreases q.len(),
{
    if !(want <= 0 || q.len() == 0 || !crosses(side, limit, q[0].price)) {
        let x = min_int(want, q[0].remaining());
        let rest = fills(q.drop_first(), side, limit, want - x);
        lemma_fills_prefix(q.drop_first(), side, limit, want - x);
        let f = fills(q, side, limit, want);
        assert(f == seq![(q[0], x)] + rest);
        assert forall|k: int| 0 <= k < f.len() implies (#[trigger] f[k]).0 == q[k] by {
            if k > 0 {
                assert(f[k] == rest[k - 1]);
            }
        }
        assert forall|k: int| 0 <= k < f.len() - 1 implies (#[trigger] f[k]).1 == q[k].remaining() by {
            if k > 0 {
                assert(f[k] == rest[k - 1]);
            } else {
                assert(rest.len() > 0);
            }
        }
    }
}

proof fn lemma_fills_conserve(q: Seq<Order>, side: Side, limit: u64, want: int)
    requires
        forall|k: int| 0 <= k < q.len() ==> (#[trigger] q[k]).valid(),
    ensures
        queue_total(after_fills(q, side, limit, want)) + fill_total(fills(q, side, limit, want)) == queue_total(q),
    decreases q.len(),
{
    if want <= 0 || q.len() == 0 || !crosses(side, limit, q[0].price) {
        assert(fill_total(Seq::<(Order, int)>::empty()) == 0);
    } else {
        let x = min_int(want, q[0].remaining());
        let f = fills(q, side, limit, want);
        lemma_fill_total_front(f);
        assert(f.drop_first() =~= fills(q.drop_first(), side, limit, want - x));
        lemma_queue_total_front(q);
        lemma_fills_conserve(q.drop_first(), side, limit, want - x);
        if want < q[0].remaining() {
            let a = after_fills(q, side, limit, want);
            lemma_queue_total_front(a);
            assert(a.drop_first() =~= q.drop_first());
            assert(fills(q.drop_first(), side, limit, 0) =~= Seq::<(Order, int)>::empty());
            assert(after_fills(q.drop_first(), side, limit, 0) == q.drop_first());
        }
    }
}

proof fn lemma_fills_bounded(q: Seq<Order>, side: Side, limit: u64, want: int)
    requires
        forall|k: int| 0 <= k < q.len() ==> (#[trigger] q[k]).valid(),
        want >= 0,
    ensures
        0 <= fill_total(fills(q, side, limit, want)) <= want,
    decreases q.len(),
{
    if want <= 0 || q.len() == 0 || !crosses(side, limit, q[0].price) {
        assert(fill_total(Seq::<(Order, int)>::empty()) == 0);
    } else {
        let x = min_int(want, q[0].remaining());
        let f = fills(q, side, limit, want);
        lemma_fill_total_front(f);
        assert(f.drop_first() =~= fills(q.drop_first(), side, limit, want - x));
        assert(q[0].valid());
        lemma_fills_bounded(q.drop_first(), side, limit, want - x);
    }
}

proof fn lemma_trade_total_matches(t: Seq<Trade>, f: Seq<(Order, int)>)
    requires
        t.len() == f.len(),
        forall|k: int| 0 <= k < t.len() ==> (#[trigger] t[k]).quantity == f[k].1,
    ensures
        trade_total(t) == fill_total(f),
    decreases t.len(),
{
    if t.len() > 0 {
        lemma_trade_total_matches(t.drop_last(), f.drop_last());
    }
}

proof fn lemma_flatten_member(l: Ladder, m: int)
    requires
        0 <= m < flatten(l).len(),
    ensures
        exists|i: int, j: int| 0 <= i < l.len() && 0 <= j < l[i].1.len() && #[trigger] l[i].1[j] == flatten(l)[m],
    decreases l.len(),
{
    if l.len() > 0 {
        if m < l[0].1.len() {
            assert(l[0].1[m] == flatten(l)[m]);
        } else {
            lemma_flatten_member(l.drop_first(), m - l[0].1.len());
            let (i, j) = choose|i: int, j: int|
                0 <= i < l.drop_first().len() && 0 <= j < l.drop_first()[i].1.len() && #[trigger] l.drop_first()[i].1[j]
                    == flatten(l.drop_first())[m - l[0].1.len()];
            assert(l[i + 1].1[j] == flatten(l)[m]);
        }
    }
}

/// Every fill of a match is of an order that stands on the ladder.
pub proof fn lemma_fills_member(l: Ladder, side: Side, limit: u64, want: int)
    ensures
        forall|k: int|
            0 <= k < fills(flatten(l), side, limit, want).len() ==> exists|i: int, j: int|
                0 <= i < l.len() && 0 <= j < l[i].1.len() && l[i].1[j] == (#[trigger] fills(
                    flatten(l),
                    side,
                    limit,
                    want,
                )[k]).0,
{
    lemma_fills_prefix(flatten(l), side, limit, want);
    assert forall|k: int| 0 <= k < fills(flatten(l), side, limit, want).len() implies exists|i: int, j: int|
        0 <= i < l.len() && 0 <= j < l[i].1.len() && l[i].1[j] == (#[trigger] fills(flatten(l), side, limit, want)[k]).0 by {
        lemma_flatten_member(l, k);
    }
}

/// Conservation: the quantity that a match adds to the aggressor's filled
/// quantity is the summed quantity of its trades, and the opposite side's
/// remaining quantity falls by exactly that much; so each trade of quantity
/// `Q` adds `Q` to both orders' filled quantities.
pub proof fn lemma_match_conserves(
    before: Ladder,
    after: Ladder,
    o: Order,
    o2: Order,
    trades: Seq<Trade>,
    symbol: Seq<char>,
)
    requires
        ladder_wf(before, o.side.spec_opposite()),
        o.valid(),
        o2.valid(),
        match_outcome(before, after, o, o2, trades, symbol),
    ensures
        o2.filled_quantity == o.filled_quantity + trade_total(trades),
        queue_total(flatten(after)) == queue_total(flatten(before)) - trade_total(trades),
{
    let q = flatten(before);
    let f = fills(q, o.side, effective_limit(o), o.remaining());
    lemma_trade_total_matches(trades, f);
    assert forall|k: int| 0 <= k < q.len() implies (#[trigger] q[k]).valid() by {
        lemma_flatten_member(before, k);
    }
    lemma_fills_conserve(q, o.side, effective_limit(o), o.remaining());
    lemma_fills_bounded(q, o.side, effective_limit(o), o.remaining());
}

/// Price-time priority: a match takes the queue in order, so when it takes
/// anything from the order at position `b`, every order ahead of it, among
/// them each older order at the same price, was filled completely.
pub proof fn lemma_time_priority(q: Seq<Order>, side: Side, limit: u64, want: int, a: int, b: int)
    requires
        0 <= a < b < fills(q, side, limit, want).len(),
    ensures
        fills(q, side, limit, want)[a].0 == q[a],
        fills(q, side, limit, want)[a].1 == q[a].remaining(),
        fills(q, side, limit, want)[b].0 == q[b],
{
    lemma_fills_prefix(q, side, limit, want);
}

/// The passive-price rule: each trade of a match is at the limit price of
/// the resting order it filled, an order of the opposite side as it stood.
pub proof fn lemma_passive_price(
    before: Ladder,
    after: Ladder,
    o: Order,
    o2: Order,
    trades: Seq<Trade>,
    symbol: Seq<char>,
    k: int,
)
    requires
        match_outcome(before, after, o, o2, trades, symbol),
        0 <= k < trades.len(),
    ensures
        exists|i: int, j: int|
            0 <= i < before.len() && 0 <= j < before[i].1.len() && trades[k].price == (#[trigger] before[i].1[j]).price && (
            o.side == Side::Buy ==> trades[k].sell_order_id == before[i].1[j].id) && (o.side == Side::Sell
                ==> trades[k].buy_order_id == before[i].1[j].id),
{
    let q = flatten(before);
    lemma_fills_prefix(q, o.side, effective_limit(o), o.remaining());
    lemma_flatten_member(before, k);
}

/// Two snapshots of a book that has not changed in between hold the same
/// symbol and the same levels.
pub proof fn lemma_snapshot_repeatable(b: OrderBook, s1: OrderBookSnapshot, s2: OrderBookSnapshot)
    requires
        s1.symbol@ == b.spec_symbol(),
        s1.bids@ == summary(b.bid_levels(), SNAPSHOT_DEPTH as int),
        s1.asks@ == summary(b.ask_levels(), SNAPSHOT_DEPTH as int),
        s2.symbol@ == b.spec_symbol(),
        s2.bids@ == summary(b.bid_levels(), SNAPSHOT_DEPTH as int),
        s2.asks@ == summary(b.ask_levels(), SNAPSHOT_DEPTH as int),
    ensures
        s1.symbol@ == s2.symbol@,
        s1.bids@ == s2.bids@,
        s1.asks@ == s2.asks@,
{
}

/// Cancelling removes: once the only order with id `id` is taken off a
/// ladder, the ladder holds no order with that id and no later match against
/// it can fill one.
pub proof fn lemma_cancel_removes(l: Ladder, side: Side, id: u128, i: int, j: int)
    requires
        ladder_wf(l, side),
        id_unique(l, id),
        first_at(l, id, i, j),
    ensures
        !holds_id(ladder_remove(l, i, j), id),
        forall|aggressor: Side, limit: u64, want: int, k: int|
            0 <= k < fills(flatten(ladder_remove(l, i, j)), aggressor, limit, want).len() ==> (#[trigger] fills(
                flatten(ladder_remove(l, i, j)),
                aggressor,
                limit,
                want,
            )[k]).0.id != id,
{
    let l2 = ladder_remove(l, i, j);
    if holds_id(l2, id) {
        let (a, b) = choose|a: int, b: int| 0 <= a < l2.len() && 0 <= b < l2[a].1.len() && (#[trigger] l2[a].1[b]).id == id;
        if l[i].1.len() == 1 {
            if a < i {
                assert(l2[a].1[b] == l[a].1[b]);
            } else {
                assert(l2[a].1[b] == l[a + 1].1[b]);
            }
        } else if a == i {
            if b < j {
                assert(l2[a].1[b] == l[a].1[b]);
            } else {
                assert(l2[a].1[b] == l[a].1[b + 1]);
            }
        } else {
            assert(l2[a].1[b] == l[a].1[b]);
        }
    }
    assert forall|aggressor: Side, limit: u64, want: int, k: int|
        0 <= k < fills(flatten(l2), aggressor, limit, want).len() implies (#[trigger] fills(
        flatten(l2),
        aggressor,
        limit,
        want,
    )[k]).0.id != id by {
        lemma_fills_prefix(flatten(l2), aggressor, limit, want);
        lemma_flatten_member(l2, k);
    }
}

/// The id of the resting order that trade `t` of aggressor `o` names.
pub open spec fn passive_id(t: Trade, o: Order) -> u128 {
    if o.side == Side::Buy { t.sell_order_id } else { t.buy_order_id }
}

/// No two orders of `q` share an id.
pub open spec fn distinct_ids(q: Seq<Order>) -> bool {
    forall|a: int, b: int| 0 <= a < b < q.len() ==> (#[trigger] q[a]).id != (#[trigger] q[b]).id
}

/// What a match leaves of the queue: everything after the orders it
/// filled, with the last of those kept at the head, partly filled, when it
/// was not filled completely.
proof fn lemma_after_fills_shape(q: Seq<Order>, side: Side, limit: u64, want: int)
    ensures
        ({
            let f = fills(q, side, limit, want);
            let n = f.len() as int;
            let a = after_fills(q, side, limit, want);
            ||| a == q.skip(n) && (n > 0 ==> f[n - 1].1 == q[n - 1].remaining())
            ||| n > 0 && a == seq![partly_filled(q[n - 1], q[n - 1].filled_quantity + f[n - 1].1)] + q.skip(n)
        }),
    decreases q.len(),
{
    if want <= 0 || q.len() == 0 || !crosses(side, limit, q[0].price) {
        assert(q.skip(0) =~= q);
    } else {
        let x = min_int(want, q[0].remaining());
        let f = fills(q, side, limit, want);
        let rest = fills(q.drop_first(), side, limit, want - x);
        assert(f == seq![(q[0], x)] + rest);
        lemma_after_fills_shape(q.drop_first(), side, limit, want - x);
        lemma_fills_prefix(q.drop_first(), side, limit, want - x);
        let m = rest.len() as int;
        assert(q.drop_first().skip(m) =~= q.skip(m + 1));
        if m > 0 {
            assert(f[m] == rest[m - 1]);
            assert(q.drop_first()[m - 1] == q[m]);
        }
        if want < q[0].remaining() {
            assert(rest =~= Seq::<(Order, int)>::empty());
            assert(q.drop_first() =~= q.skip(1));
        }
    }
}

/// Conservation, order by order: the `k`-th trade of a match names the
/// `k`-th order of the opposite queue and adds its quantity to that order's
/// filled quantity. Every order it names but the last is filled completely
/// and leaves the book; the last either does too or stays at the head of
/// the queue, partly filled by exactly its trade's quantity. The aggressor
/// gains the sum of all the trades (`lemma_match_conserves`).
pub proof fn lemma_match_fills_each(
    before: Ladder,
    after: Ladder,
    o: Order,
    o2: Order,
    trades: Seq<Trade>,
    symbol: Seq<char>,
)
    requires
        match_outcome(before, after, o, o2, trades, symbol),
    ensures
        ({
            let q = flatten(before);
            let n = trades.len() as int;
            let a = flatten(after);
            &&& n <= q.len()
            &&& forall|k: int| 0 <= k < n ==> passive_id(#[trigger] trades[k], o) == q[k].id
            &&& forall|k: int| 0 <= k < n - 1 ==> (#[trigger] trades[k]).quantity == q[k].remaining()
            &&& {
                ||| a == q.skip(n) && (n > 0 ==> trades[n - 1].quantity == q[n - 1].remaining())
                ||| n > 0 && a == seq![partly_filled(q[n - 1], q[n - 1].filled_quantity + trades[n - 1].quantity)]
                    + q.skip(n)
            }
        }),
{
    let q = flatten(before);
    lemma_fills_prefix(q, o.side, effective_limit(o), o.remaining());
    lemma_after_fills_shape(q, o.side, effective_limit(o), o.remaining());
}

/// Price-time priority in terms of trades: if a match trades with the
/// resting order `y` of the opposite queue, then every order `x` ahead of it
/// (each older order at the same price among them) was traded first, for
/// its whole remaining quantity, and is gone from the book.
pub proof fn lemma_time_priority_trades(
    before: Ladder,
    after: Ladder,
    o: Order,
    o2: Order,
    trades: Seq<Trade>,
    symbol: Seq<char>,
    x: int,
    y: int,
    t: int,
)
    requires
        match_outcome(before, after, o, o2, trades, symbol),
        distinct_ids(flatten(before)),
        0 <= x < y < flatten(before).len(),
        0 <= t < trades.len(),
        passive_id(trades[t], o) == flatten(before)[y].id,
    ensures
        t == y,
        x < t,
        passive_id(trades[x], o) == flatten(before)[x].id,
        trades[x].quantity == flatten(before)[x].remaining(),
        forall|m: int| 0 <= m < flatten(after).len() ==> (#[trigger] flatten(after)[m]).id != flatten(before)[x].id,
{
    let q = flatten(before);
    lemma_match_fills_each(before, after, o, o2, trades, symbol);
    assert(passive_id(trades[t], o) == q[t].id);
    if t != y {
        if t < y {
            assert(q[t].id != q[y].id);
        } else {
            assert(q[y].id != q[t].id);
        }
    }
    let n = trades.len() as int;
    let a = flatten(after);
    assert forall|m: int| 0 <= m < a.len() implies (#[trigger] a[m]).id != q[x].id by {
        if a == q.skip(n) {
            assert(a[m] == q[m + n]);
        } else {
            if m == 0 {
                assert(a[0].id == q[n - 1].id);
            } else {
                assert(a[m] == q[m - 1 + n]);
            }
        }
    }
}

/// Every order that stands on a ladder appears in its matching order.
proof fn lemma_member_flatten(l: Ladder, i: int, j: int)
    requires
        0 <= i < l.len(),
        0 <= j < l[i].1.len(),
    ensures
        exists|m: int| 0 <= m < flatten(l).len() && #[trigger] flatten(l)[m] == l[i].1[j],
    decreases l.len(),
{
    if i == 0 {
        assert(flatten(l)[j] == l[0].1[j]);
    } else {
        lemma_member_flatten(l.drop_first(), i - 1, j);
        let m = choose|m: int| 0 <= m < flatten(l.drop_first()).len() && #[trigger] flatten(l.drop_first())[m]
            == l.drop_first()[i - 1].1[j];
        assert(flatten(l)[m + l[0].1.len()] == l[i].1[j]);
    }
}

/// A match that fills a resting order completely takes it off the book: no
/// order on the ladder afterwards carries its id, so cancelling it then
/// finds nothing (`MatchingEngine::cancel_order` answers `OrderNotFound`).
pub proof fn lemma_filled_order_gone(
    before: Ladder,
    after: Ladder,
    o: Order,
    o2: Order,
    trades: Seq<Trade>,
    symbol: Seq<char>,
    k: int,
)
    requires
        match_outcome(before, after, o, o2, trades, symbol),
        ladder_wf(after, o.side.spec_opposite()),
        distinct_ids(flatten(before)),
        0 <= k < trades.len(),
        trades[k].quantity == flatten(before)[k].remaining(),
        flatten(before)[k].remaining() > 0,
    ensures
        passive_id(trades[k], o) == flatten(before)[k].id,
        !holds_id(after, flatten(before)[k].id),
{
    let q = flatten(before);
    let a = flatten(after);
    let n = trades.len() as int;
    let id = q[k].id;
    lemma_match_fills_each(before, after, o, o2, trades, symbol);
    assert forall|m: int| 0 <= m < a.len() implies (#[trigger] a[m]).id != id by {
        if a == q.skip(n) {
            assert(a[m] == q[m + n]);
        } else if m == 0 {
            assert(a[0].id == q[n - 1].id);
            if k == n - 1 {
                assert(trades[n - 1].quantity == q[n - 1].remaining());
                assert(a[0].filled_quantity == q[n - 1].quantity);
                lemma_flatten_member(after, 0);
                assert(a[0].remaining() > 0);
            }
        } else {
            assert(a[m] == q[m - 1 + n]);
        }
    }
    if holds_id(after, id) {
        let (i, j) = choose|i: int, j: int| 0 <= i < after.len() && 0 <= j < after[i].1.len() && (#[trigger] after[i].1[j]).id == id;
        lemma_member_flatten(after, i, j);
    }
}

/// The book of one symbol: bids best (highest) first and asks best (lowest)
/// first, each level a FIFO queue.
#[derive(Debug, Clone)]
pub struct OrderBook {
    symbol: String,
    bids: Vec<PriceLevel>,
    asks: Vec<PriceLevel>,
}

impl OrderBook {
    pub closed spec fn spec_symbol(self) -> Seq<char> {
        self.symbol@
    }

    pub closed spec fn bid_levels(self) -> Ladder {
        ladder_of(self.bids@)
    }

    pub closed spec fn ask_levels(self) -> Ladder {
        ladder_of(self.asks@)
    }

    pub open spec fn levels(self, side: Side) -> Ladder {
        match side {
            Side::Buy => self.bid_levels(),
            Side::Sell => self.ask_levels(),
        }
    }

    pub open spec fn wf(self) -> bool {
        ladder_wf(self.bid_levels(), Side::Buy) && ladder_wf(self.ask_levels(), Side::Sell)
    }

    /// The best bid is below the best ask whenever both sides hold orders.
    pub open spec fn uncrossed(self) -> bool {
        self.bid_levels().len() > 0 && self.ask_levels().len() > 0 ==> self.bid_levels()[0].0
            < self.ask_levels()[0].0
    }

    /// An empty book.
    pub fn new(symbol: String) -> (r: OrderBook)
        ensures
            r.wf(),
            r.spec_symbol() == symbol@,
            r.bid_levels().len() == 0,
            r.ask_levels().len() == 0,
    {
        let r = OrderBook { symbol, bids: Vec::new(), asks: Vec::new() };
        assert(r.bid_levels() =~= Seq::empty());
        assert(r.ask_levels() =~= Seq::empty());
        r
    }

    /// Appends `order` to the tail of the queue at its price on its side.
    pub fn add_order(&mut self, order: Order)
        requires
            old(self).wf(),
            order.valid(),
            order.remaining() > 0,
            status_law(order),
        ensures
            final(self).wf(),
            final(self).spec_symbol() == old(self).spec_symbol(),
            final(self).levels(order.side) == ladder_add(old(self).levels(order.side), order.side, order),
            final(self).levels(order.side.spec_opposite()) == old(self).levels(order.side.spec_opposite()),
    {
        match order.side {
            Side::Buy => add_to_ladder(&mut self.bids, Side::Buy, order),
            Side::Sell => add_to_ladder(&mut self.asks, Side::Sell, order),
        }
    }
    /// Matches `order` against the opposite side in price-time priority: best
    /// price first, oldest first within a price, each trade at the resting
    /// order's price for the smaller of the two remaining quantities, for as
    /// long as the price is within the order's effective limit. Returns the
    /// updated order and the trades in execution order.
    pub fn match_order(&mut self, order: Order) -> (r: (Order, Vec<Trade>))
        requires
            old(self).wf(),
            order.valid(),
        ensures
            final(self).wf(),
            final(self).spec_symbol() == old(self).spec_symbol(),
            final(self).levels(order.side) == old(self).levels(order.side),
            r.0.valid(),
            match_outcome(
                old(self).levels(order.side.spec_opposite()),
                final(self).levels(order.side.spec_opposite()),
                order,
                r.0,
                r.1@,
                old(self).spec_symbol(),
            ),
    {
        let mut incoming = order;
        let trades = match incoming.side {
            Side::Buy => match_against(&mut self.asks, Side::Sell, &mut incoming, &self.symbol),
            Side::Sell => match_against(&mut self.bids, Side::Buy, &mut incoming, &self.symbol),
        };
        (incoming, trades)
    }
    /// The book `other` holds the same symbol and the same levels.
    pub open spec fn same_as(self, other: OrderBook) -> bool {
        &&& self.spec_symbol() == other.spec_symbol()
        &&& self.bid_levels() == other.bid_levels()
        &&& self.ask_levels() == other.ask_levels()
    }

    /// A deep copy.
    pub fn duplicate(&self) -> (r: OrderBook)
        ensures
            r.same_as(*self),
    {
        OrderBook { symbol: self.symbol.clone(), bids: copy_ladder(&self.bids), asks: copy_ladder(&self.asks) }
    }

    /// Removes the first order with id `order_id` from the `side` ladder,
    /// pruning its level if that empties it.
    pub fn remove_order(&mut self, order_id: u128, side: Side) -> (r: Option<Order>)
        requires
            old(self).wf(),
        ensures
            final(self).wf(),
            final(self).spec_symbol() == old(self).spec_symbol(),
            final(self).levels(side.spec_opposite()) == old(self).levels(side.spec_opposite()),
            r.is_none() == !holds_id(old(self).levels(side), order_id),
            r.is_none() ==> final(self).levels(side) == old(self).levels(side),
            r.is_some() ==> exists|i: int, j: int|
                first_at(old(self).levels(side), order_id, i, j) && r.unwrap() == old(self).levels(side)[i].1[j]
                    && final(self).levels(side) == ladder_remove(old(self).levels(side), i, j),
    {
        match side {
            Side::Buy => remove_from_ladder(&mut self.bids, Side::Buy, order_id),
            Side::Sell => remove_from_ladder(&mut self.asks, Side::Sell, order_id),
        }
    }

    /// The highest bid price.
    pub fn get_best_bid(&self) -> (r: Option<u64>)
        ensures
            r == (if self.bid_levels().len() > 0 { Some(self.bid_levels()[0].0) } else { None::<u64> }),
    {
        if self.bids.len() > 0 {
            Some(self.bids[0].price)
        } else {
            None
        }
    }

    /// The lowest ask price.
    pub fn get_best_ask(&self) -> (r: Option<u64>)
        ensures
            r == (if self.ask_levels().len() > 0 { Some(self.ask_levels()[0].0) } else { None::<u64> }),
    {
        if self.asks.len() > 0 {
            Some(self.asks[0].price)
        } else {
            None
        }
    }

    /// Best ask minus best bid, when both sides hold orders.
    pub fn get_spread(&self) -> (r: Option<i128>)
        ensures
            r == (if self.bid_levels().len() > 0 && self.ask_levels().len() > 0 {
                Some((self.ask_levels()[0].0 - self.bid_levels()[0].0) as i128)
            } else {
                None::<i128>
            }),
    {
        match (self.get_best_bid(), self.get_best_ask()) {
            (Some(bid), Some(ask)) => Some(ask as i128 - bid as i128),
            _ => None,
        }
    }

    /// The top `SNAPSHOT_DEPTH` levels of each side with their summed
    /// remaining quantities, stamped with the current time.
    pub fn get_snapshot(&self) -> (r: OrderBookSnapshot)
        requires
            self.wf(),
        ensures
            r.symbol@ == self.spec_symbol(),
            r.bids@ == summary(self.bid_levels(), SNAPSHOT_DEPTH as int),
            r.asks@ == summary(self.ask_levels(), SNAPSHOT_DEPTH as int),
    {
        let bids = ladder_depth(&self.bids, Side::Buy, SNAPSHOT_DEPTH);
        let asks = ladder_depth(&self.asks, Side::Sell, SNAPSHOT_DEPTH);
        OrderBookSnapshot { symbol: self.symbol.clone(), bids, asks, timestamp: now_millis() }
    }

    /// The top `levels` levels of `side`, best first, with their summed
    /// remaining quantities.
    pub fn get_depth(&self, side: Side, levels: usize) -> (r: Vec<OrderBookLevel>)
        requires
            self.wf(),
        ensures
            r@ == summary(self.levels(side), levels as int),
    {
        match side {
            Side::Buy => ladder_depth(&self.bids, Side::Buy, levels),
            Side::Sell => ladder_depth(&self.asks, Side::Sell, levels),
        }
    }
}

fn copy_queue(v: &Vec<Order>) -> (r: Vec<Order>)
    ensures
        r@ == v@,
{
    let mut out: Vec<Order> = Vec::new();
    let mut i: usize = 0;
    while i < v.len()
        invariant
            0 <= i <= v.len(),
            out@ == v@.take(i as int),
        decreases v.len() - i,
    {
        out.push(v[i].duplicate());
        assert(out@ =~= v@.take(i + 1));
        i = i + 1;
    }
    assert(v@.take(i as int) =~= v@);
    out
}

fn copy_ladder(v: &Vec<PriceLevel>) -> (r: Vec<PriceLevel>)
    ensures
        ladder_of(r@) == ladder_of(v@),
{
    let mut out: Vec<PriceLevel> = Vec::new();
    let mut i: usize = 0;
    while i < v.len()
        invariant
            0 <= i <= v.len(),
            out@.len() == i,
            ladder_of(out@) == ladder_of(v@.take(i as int)),
        decreases v.len() - i,
    {
        let ghost before = out@;
        out.push(PriceLevel { price: v[i].price, orders: copy_queue(&v[i].orders) });
        assert forall|k: int| 0 <= k < i + 1 implies #[trigger] ladder_of(out@)[k] == ladder_of(v@.take(i + 1))[k] by {
            if k < i {
                assert(out@[k] == before[k]);
                assert(ladder_of(before)[k] == ladder_of(v@.take(i as int))[k]);
            }
        }
        assert(ladder_of(out@) =~= ladder_of(v@.take(i + 1)));
        i = i + 1;
    }
    assert(v@.take(i as int) =~= v@);
    out
}

fn queue_sum(orders: &Vec<Order>) -> (r: u128)
    requires
        forall|k: int| 0 <= k < orders@.len() ==> (#[trigger] orders@[k]).valid(),
    ensures
        r == queue_total(orders@),
{
    let mut acc: u128 = 0;
    let mut i: usize = 0;
    assert(orders@.take(0) =~= Seq::<Order>::empty());
    while i < orders.len()
        invariant
            0 <= i <= orders.len(),
            forall|k: int| 0 <= k < orders@.len() ==> (#[trigger] orders@[k]).valid(),
            acc == queue_total(orders@.take(i as int)),
            acc <= i * 0xffff_ffff_ffff_ffffu128,
        decreases orders.len() - i,
    {
        let o = &orders[i];
        let rem = o.quantity - o.filled_quantity;
        assert(orders@.take(i + 1).drop_last() =~= orders@.take(i as int));
        proof {
            let n = i as int + 1;
            assert(n <= 0xffff_ffff_ffff_ffff);
            assert(n * 0xffff_ffff_ffff_ffff <= 0xffff_ffff_ffff_ffff * 0xffff_ffff_ffff_ffff) by (nonlinear_arith)
                requires
                    n <= 0xffff_ffff_ffff_ffff,
            ;
        }
        acc = acc + rem as u128;
        i = i + 1;
    }
    assert(orders@.take(i as int) =~= orders@);
    acc
}

fn ladder_depth(levels: &Vec<PriceLevel>, side: Side, n: usize) -> (r: Vec<OrderBookLevel>)
    requires
        ladder_wf(ladder_of(levels@), side),
    ensures
        r@ == summary(ladder_of(levels@), n as int),
{
    let ghost l = ladder_of(levels@);
    let mut out: Vec<OrderBookLevel> = Vec::new();
    let mut i: usize = 0;
    while i < levels.len() && i < n
        invariant
            0 <= i <= levels.len(),
            i <= n,
            l == ladder_of(levels@),
            ladder_wf(l, side),
            out@.len() == i,
            forall|k: int| 0 <= k < i ==> #[trigger] out@[k] == summary(l, n as int)[k],
        decreases levels.len() - i,
    {
        let lvl = &levels[i];
        assert(lvl.orders@ == l[i as int].1);
        assert(forall|k: int| 0 <= k < lvl.orders@.len() ==> resting_ok(#[trigger] l[i as int].1[k], side, l[i as int].0));
        let quantity = queue_sum(&lvl.orders);
        out.push(OrderBookLevel { price: lvl.price, quantity });
        i = i + 1;
    }
    assert(out@ =~= summary(l, n as int));
    out
}

fn remove_from_ladder(levels: &mut Vec<PriceLevel>, side: Side, id: u128) -> (r: Option<Order>)
    requires
        ladder_wf(ladder_of(old(levels)@), side),
    ensures
        ladder_wf(ladder_of(final(levels)@), side),
        r.is_none() == !holds_id(ladder_of(old(levels)@), id),
        r.is_none() ==> ladder_of(final(levels)@) == ladder_of(old(levels)@),
        r.is_some() ==> exists|i: int, j: int|
            first_at(ladder_of(old(levels)@), id, i, j) && r.unwrap() == ladder_of(old(levels)@)[i].1[j]
                && ladder_of(final(levels)@) == ladder_remove(ladder_of(old(levels)@), i, j),
{
    let ghost l = ladder_of(levels@);
    let mut i: usize = 0;
    while i < levels.len()
        invariant
            0 <= i <= levels.len(),
            l == ladder_of(levels@),
            l == ladder_of(old(levels)@),
            ladder_wf(l, side),
            forall|a: int, b: int| 0 <= a < i && 0 <= b < l[a].1.len() ==> (#[trigger] l[a].1[b]).id != id,
        decreases levels.len() - i,
    {
        let mut j: usize = 0;
        while j < levels[i].orders.len()
            invariant
                0 <= i < levels.len(),
                0 <= j <= levels@[i as int].orders.len(),
                l == ladder_of(levels@),
                l == ladder_of(old(levels)@),
                ladder_wf(l, side),
                forall|a: int, b: int| 0 <= a < i && 0 <= b < l[a].1.len() ==> (#[trigger] l[a].1[b]).id != id,
                forall|b: int| 0 <= b < j ==> (#[trigger] l[i as int].1[b]).id != id,
            decreases levels@[i as int].orders.len() - j,
        {
            if levels[i].orders[j].id == id {
                assert(first_at(l, id, i as int, j as int));
                assert(holds_id(l, id));
                let mut lvl = levels.remove(i);
                let o = lvl.orders.remove(j);
                assert(o == l[i as int].1[j as int]);
                if lvl.orders.len() > 0 {
                    levels.insert(i, lvl);
                    assert(ladder_of(levels@) =~= ladder_remove(l, i as int, j as int));
                } else {
                    assert(ladder_of(levels@) =~= ladder_remove(l, i as int, j as int));
                }
                let ghost l2 = ladder_of(levels@);
                assert(forall|a: int, b: int| 0 <= a < l2.len() && 0 <= b < l2[a].1.len() ==>
                    resting_ok(#[trigger] l2[a].1[b], side, l2[a].0)) by {
                    assert forall|a: int, b: int| 0 <= a < l2.len() && 0 <= b < l2[a].1.len() implies
                        resting_ok(#[trigger] l2[a].1[b], side, l2[a].0) by {
                        if l[i as int].1.len() == 1 {
                            if a >= i {
                                assert(l2[a] == l[a + 1]);
                            }
                        } else if a == i {
                            if b >= j {
                                assert(l2[a].1[b] == l[a].1[b + 1]);
                            }
                        }
                    }
                }
                return Some(o);
            }
            j = j + 1;
        }
        i = i + 1;
    }
    None
}

fn ranks_ahead(side: Side, a: u64, b: u64) -> (r: bool)
    ensures
        r == better(side, a, b),
{
    match side {
        Side::Buy => a > b,
        Side::Sell => a < b,
    }
}

fn reaches(side: Side, limit: u64, p: u64) -> (r: bool)
    ensures
        r == crosses(side, limit, p),
{
    match side {
        Side::Buy => p <= limit,
        Side::Sell => p >= limit,
    }
}

fn match_against(levels: &mut Vec<PriceLevel>, opp: Side, incoming: &mut Order, symbol: &String) -> (trades: Vec<Trade>)
    requires
        ladder_wf(ladder_of(old(levels)@), opp),
        opp == old(incoming).side.spec_opposite(),
        old(incoming).valid(),
    ensures
        ladder_wf(ladder_of(final(levels)@), opp),
        final(incoming).valid(),
        match_outcome(
            ladder_of(old(levels)@),
            ladder_of(final(levels)@),
            *old(incoming),
            *final(incoming),
            trades@,
            symbol@,
        ),
{
    let ghost l0 = ladder_of(levels@);
    let ghost q0 = flatten(l0);
    let ghost o0 = *incoming;
    let ghost f0 = fills(q0, o0.side, effective_limit(o0), o0.remaining());
    let ghost mut done: Seq<(Order, int)> = Seq::empty();
    let side = incoming.side;
    let limit = match (incoming.order_type, side) {
        (OrderType::Market, Side::Buy) => u64::MAX,
        (OrderType::Market, Side::Sell) => 0,
        _ => incoming.price,
    };
    let mut trades: Vec<Trade> = Vec::new();
    assert(done + f0 =~= f0);
    assert(*incoming == with_filled(o0, o0.filled_quantity + fill_total(done)));
    while levels.len() > 0 && incoming.filled_quantity < incoming.quantity && reaches(side, limit, levels[0].price)
        invariant
            ladder_wf(ladder_of(levels@), opp),
            opp == side.spec_opposite(),
            side == o0.side,
            limit == effective_limit(o0),
            incoming.valid(),
            *incoming == with_filled(o0, o0.filled_quantity + fill_total(done)),
            incoming.filled_quantity == o0.filled_quantity + fill_total(done),
            done + fills(flatten(ladder_of(levels@)), side, limit, incoming.remaining()) == f0,
            after_fills(flatten(ladder_of(levels@)), side, limit, incoming.remaining()) == after_fills(
                q0,
                side,
                limit,
                o0.remaining(),
            ),
            trades@.len() == done.len(),
            forall|k: int| 0 <= k < done.len() ==> records_fill(#[trigger] trades@[k], done[k], o0, symbol@),
            levels.len() <= l0.len(),
            forall|i: int| 0 <= i < levels.len() ==> (#[trigger] levels@[i]).price == l0[i + l0.len() - levels.len()].0,
        decreases levels.len(), (if levels.len() > 0 { levels@[0].orders@.len() } else { 0 }), incoming.remaining(),
    {
        let ghost l = ladder_of(levels@);
        let ghost q = flatten(l);
        let ghost want0 = incoming.remaining();
        proof {
            lemma_flatten_front(l, l[0].1.drop_first());
            assert(l[0].1[0] == q[0]);
        }
        let want = incoming.quantity - incoming.filled_quantity;
        let mut lvl = levels.remove(0);
        let mut head = lvl.orders.remove(0);
        let head_rem = head.quantity - head.filled_quantity;
        let qty = if want < head_rem { want } else { head_rem };
        let (buy_id, sell_id) = match side {
            Side::Buy => (incoming.id, head.id),
            Side::Sell => (head.id, incoming.id),
        };
        trades.push(Trade::new(symbol.clone(), lvl.price, qty, buy_id, sell_id));
        let ghost h = head;
        proof {
            let old_done = done;
            done = done.push((h, qty as int));
            assert(done.drop_last() =~= old_done);
            assert(fill_total(done) == fill_total(old_done) + qty);
            assert(fills(q, side, limit, want0) == seq![(h, qty as int)] + fills(q.drop_first(), side, limit, want0 - qty));
            assert(old_done + (seq![(h, qty as int)] + fills(q.drop_first(), side, limit, want0 - qty))
                =~= done + fills(q.drop_first(), side, limit, want0 - qty));
        }
        incoming.filled_quantity = incoming.filled_quantity + qty;
        head.filled_quantity = head.filled_quantity + qty;
        if head.filled_quantity < head.quantity {
            head.status = OrderStatus::PartiallyFilled;
            lvl.orders.insert(0, head);
            levels.insert(0, lvl);
            proof {
                assert(lvl.orders@ =~= l[0].1.update(0, head));
                assert(ladder_of(levels@) =~= l.update(0, (l[0].0, l[0].1.update(0, head))));
                lemma_flatten_front(l, l[0].1.update(0, head));
                assert(flatten(ladder_of(levels@)) =~= seq![partly_filled(h, h.filled_quantity + want0)] + q.drop_first());
            }
        } else if lvl.orders.len() > 0 {
            levels.insert(0, lvl);
            proof {
                assert(ladder_of(levels@) =~= l.update(0, (l[0].0, l[0].1.drop_first())));
                assert(flatten(ladder_of(levels@)) =~= q.drop_first());
            }
        } else {
            proof {
                assert(ladder_of(levels@) =~= l.drop_first());
                assert(l[0].1.drop_first() =~= Seq::<Order>::empty());
                assert(flatten(ladder_of(levels@)) =~= q.drop_first());
            }
        }
    }
    proof {
        let l = ladder_of(levels@);
        if l.len() > 0 {
            lemma_flatten_front(l, l[0].1);
        } else {
            assert(flatten(l) =~= Seq::<Order>::empty());
        }
        assert(done + Seq::<(Order, int)>::empty() =~= done);
    }
    trades
}

fn add_to_ladder(levels: &mut Vec<PriceLevel>, side: Side, order: Order)
    requires
        ladder_wf(ladder_of(old(levels)@), side),
        order.side == side,
        order.valid(),
        order.remaining() > 0,
        status_law(order),
    ensures
        ladder_wf(ladder_of(final(levels)@), side),
        ladder_of(final(levels)@) == ladder_add(ladder_of(old(levels)@), side, order),
{
    let ghost l = ladder_of(levels@);
    let p = order.price;
    let mut i: usize = 0;
    assert(l.skip(0) =~= l);
    while i < levels.len() && ranks_ahead(side, levels[i].price, p)
        invariant
            0 <= i <= levels.len(),
            l == ladder_of(levels@),
            ladder_wf(l, side),
            insert_pos(l, side, p) == i + insert_pos(l.skip(i as int), side, p),
            forall|k: int| 0 <= k < i ==> better(side, #[trigger] l[k].0, p),
        decreases levels.len() - i,
    {
        assert(l.skip(i as int).drop_first() =~= l.skip(i + 1));
        i = i + 1;
    }
    assert(insert_pos(l.skip(i as int), side, p) == 0);
    if i < levels.len() && levels[i].price == p {
        let mut lvl = levels.remove(i);
        lvl.orders.push(order);
        levels.insert(i, lvl);
        assert(ladder_of(levels@) =~= l.update(i as int, (p, l[i as int].1.push(order))));
    } else {
        let mut orders: Vec<Order> = Vec::new();
        orders.push(order);
        let lvl = PriceLevel { price: p, orders };
        assert(lvl.orders@ =~= seq![order]);
        levels.insert(i, lvl);
        assert(ladder_of(levels@) =~= l.insert(i as int, (p, seq![order])));
    }
}

} // verus!
