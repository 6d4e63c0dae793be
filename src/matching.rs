use vstd::prelude::*;

use crate::orderbook::{
    after_fills, better, crosses, effective_limit, fill_total, fills, lemma_fills_member, first_at, flatten, holds_id, insert_pos, ladder_add,
    ladder_remove, ladder_wf, match_outcome, records_fill, summary, with_filled, Ladder, OrderBook,
    SNAPSHOT_DEPTH,
};
use crate::types::{Order, OrderBookSnapshot, OrderStatus, OrderType, Side, Trade};
use dashmap::DashMap;
use tokio::sync::mpsc::UnboundedSender;

verus! {

#[verifier::external_type_specification]
#[verifier::external_body]
#[verifier::reject_recursive_types(K)]
#[verifier::reject_recursive_types(V)]
#[verifier::reject_recursive_types(S)]
pub struct ExDashMap<K, V, S>(DashMap<K, V, S>);

#[verifier::external_type_specification]
#[verifier::external_body]
#[verifier::reject_recursive_types(T)]
pub struct ExUnboundedSender<T>(UnboundedSender<T>);

/// The books that a map holds, by symbol.
pub uninterp spec fn books_in(m: DashMap<String, OrderBook>) -> Map<Seq<char>, OrderBook>;

/// Relies on dashmap::DashMap::new: the map starts empty.
#[verifier::external_body]
fn books_new() -> (r: DashMap<String, OrderBook>)
    ensures
        books_in(r).dom().is_empty(),
{
    DashMap::new()
}

/// Relies on dashmap::DashMap::remove: takes the entry of `symbol` out of the
/// map and hands its book over.
#[verifier::external_body]
fn books_take(m: &mut DashMap<String, OrderBook>, symbol: &str) -> (r: Option<OrderBook>)
    ensures
        r.is_some() == books_in(*old(m)).dom().contains(symbol@),
        r.is_some() ==> r.unwrap() == books_in(*old(m))[symbol@],
        books_in(*final(m)) == books_in(*old(m)).remove(symbol@),
{
    m.remove(symbol).map(|(_, book)| book)
}

/// Relies on dashmap::DashMap::insert: sets the entry of `symbol`, replacing
/// any earlier one.
#[verifier::external_body]
fn books_put(m: &mut DashMap<String, OrderBook>, symbol: String, book: OrderBook)
    ensures
        books_in(*final(m)) == books_in(*old(m)).insert(symbol@, book),
{
    m.insert(symbol, book);
}

/// Relies on dashmap::DashMap::get: a deep copy, made by
/// `OrderBook::duplicate`, of the book of `symbol`.
#[verifier::external_body]
fn books_get(m: &DashMap<String, OrderBook>, symbol: &str) -> (r: Option<OrderBook>)
    ensures
        r.is_some() == books_in(*m).dom().contains(symbol@),
        r.is_some() ==> r.unwrap().same_as(books_in(*m)[symbol@]),
{
    m.get(symbol).map(|book| book.duplicate())
}

/// Relies on dashmap::DashMap::iter: each key once, in an order that is not
/// specified.
#[verifier::external_body]
fn books_symbols(m: &DashMap<String, OrderBook>) -> (r: Vec<String>)
    ensures
        forall|k: Seq<char>| books_in(*m).dom().contains(k) <==> exists|i: int| 0 <= i < r@.len() && (#[trigger] r@[i])@ == k,
        forall|i: int, j: int| 0 <= i < j < r@.len() ==> (#[trigger] r@[i])@ != (#[trigger] r@[j])@,
{
    m.iter().map(|entry| entry.key().clone()).collect()
}

/// Relies on tokio::sync::mpsc::UnboundedSender::send: queues the trade for
/// the receiver without waiting; false when the receiver is gone.
#[verifier::external_body]
fn publish(tx: &UnboundedSender<Trade>, trade: Trade) -> (sent: bool) {
    tx.send(trade).is_ok()
}

/// Why a cancellation failed.
#[derive(Debug, Clone, Copy, PartialEq, Eq, Structural)]
pub enum EngineError {
    /// No book exists for the symbol.
    UnknownSymbol,
    /// The book holds no order with the id.
    OrderNotFound,
}

/// The status that a submitted order ends with: filled when nothing is left;
/// otherwise cancelled for a market order, which never rests; otherwise by
/// whether anything was filled.
pub open spec fn status_after_match(o: Order) -> OrderStatus {
    if o.filled_quantity >= o.quantity {
        OrderStatus::Filled
    } else if o.order_type == OrderType::Market {
        OrderStatus::Cancelled
    } else if o.filled_quantity > 0 {
        OrderStatus::PartiallyFilled
    } else {
        OrderStatus::Open
    }
}

/// The levels of `side` in the book of `symbol`; none where there is no book.
pub open spec fn levels_in(books: Map<Seq<char>, OrderBook>, symbol: Seq<char>, side: Side) -> Ladder {
    if books.dom().contains(symbol) {
        books[symbol].levels(side)
    } else {
        Seq::empty()
    }
}

/// Submitting `order` took the books from `before` to `after`, returned
/// `done` and emitted `trades`: the order was matched against the opposite
/// side of its symbol's book (created if missing), classified by what was
/// filled, and its residual, if any, was queued on its own side unless it is
/// a market order. No other book changed.
pub open spec fn execution(
    before: Map<Seq<char>, OrderBook>,
    after: Map<Seq<char>, OrderBook>,
    order: Order,
    done: Order,
    trades: Seq<Trade>,
) -> bool {
    let sym = order.symbol@;
    let side = order.side;
    let opp = side.spec_opposite();
    let q = flatten(levels_in(before, sym, opp));
    let f = fills(q, side, effective_limit(order), order.remaining());
    let m = with_filled(order, order.filled_quantity + fill_total(f));
    &&& after.dom() == before.dom().insert(sym)
    &&& after.remove(sym) == before.remove(sym)
    &&& done == Order { status: status_after_match(m), ..m }
    &&& trades.len() == f.len()
    &&& forall|k: int| 0 <= k < f.len() ==> records_fill(#[trigger] trades[k], f[k], order, sym)
    &&& flatten(after[sym].levels(opp)) == after_fills(q, side, effective_limit(order), order.remaining())
    &&& after[sym].levels(side) == (if done.remaining() > 0 && order.order_type != OrderType::Market {
        ladder_add(levels_in(before, sym, side), side, done)
    } else {
        levels_in(before, sym, side)
    })
}

/// The multi-symbol engine: one book per symbol, created on first use, and
/// the channel on which trades are published.
pub struct MatchingEngine {
    orderbooks: DashMap<String, OrderBook>,
    trade_sender: UnboundedSender<Trade>,
    /// Every trade handed to the channel so far, in the order handed.
    sent: Ghost<Seq<Trade>>,
}

proof fn lemma_add_front(l: Ladder, side: Side, o: Order)
    ensures
        ladder_add(l, side, o).len() > 0,
        ladder_add(l, side, o)[0].0 == o.price || (l.len() > 0 && ladder_add(l, side, o)[0].0 == l[0].0),
{
    let i = insert_pos(l, side, o.price);
    assert(i > 0 ==> l.len() > 0);
    assert(0 <= i <= l.len()) by {
        lemma_insert_pos_range(l, side, o.price);
    }
}

proof fn lemma_insert_pos_range(l: Ladder, side: Side, p: u64)
    ensures
        0 <= insert_pos(l, side, p) <= l.len(),
    decreases l.len(),
{
    if l.len() > 0 && better(side, l[0].0, p) {
        lemma_insert_pos_range(l.drop_first(), side, p);
    }
}

/// Matching an aggressor against an uncrossed book and queueing what is left
/// of it leaves the book uncrossed.
proof fn lemma_match_uncrossed(
    own: Ladder,
    opp: Ladder,
    opp2: Ladder,
    own2: Ladder,
    o: Order,
    o2: Order,
    trades: Seq<Trade>,
    sym: Seq<char>,
    residual: Order,
)
    requires
        ladder_wf(own, o.side),
        ladder_wf(opp, o.side.spec_opposite()),
        o.side == Side::Buy ==> (own.len() > 0 && opp.len() > 0 ==> own[0].0 < opp[0].0),
        o.side == Side::Sell ==> (own.len() > 0 && opp.len() > 0 ==> opp[0].0 < own[0].0),
        match_outcome(opp, opp2, o, o2, trades, sym),
        residual.price == o.price,
        own2 == own || (o.order_type != OrderType::Market && o2.remaining() > 0 && own2 == ladder_add(
            own,
            o.side,
            residual,
        )),
    ensures
        o.side == Side::Buy ==> (own2.len() > 0 && opp2.len() > 0 ==> own2[0].0 < opp2[0].0),
        o.side == Side::Sell ==> (own2.len() > 0 && opp2.len() > 0 ==> opp2[0].0 < own2[0].0),
{
    if opp2.len() > 0 {
        let d = opp.len() - opp2.len();
        assert(opp2[0].0 == opp[d].0);
        if d > 0 {
            assert(better(o.side.spec_opposite(), opp[0].0, opp[d].0));
        }
        if own2 != own {
            assert(!crosses(o.side, effective_limit(o), opp2[0].0));
            lemma_add_front(own, o.side, residual);
        }
    }
}

/// Taking an order off a ladder never brings a better price to its front.
proof fn lemma_remove_front(l: Ladder, side: Side, i: int, j: int)
    requires
        ladder_wf(l, side),
        0 <= i < l.len(),
        0 <= j < l[i].1.len(),
    ensures
        ladder_remove(l, i, j).len() > 0 ==> ladder_remove(l, i, j)[0].0 == l[0].0 || better(
            side,
            l[0].0,
            ladder_remove(l, i, j)[0].0,
        ),
{
    let r = ladder_remove(l, i, j);
    if r.len() > 0 && l[i].1.len() == 1 && i == 0 {
        assert(r[0] == l[1]);
        assert(better(side, l[0].0, l[1].0));
    }
}

/// Once an id is on neither side of a book, no trade of a later submission
/// to that book names it, unless the submitted order itself carries it: a
/// cancelled order is never traded again.
pub proof fn lemma_absent_never_traded(
    before: Map<Seq<char>, OrderBook>,
    after: Map<Seq<char>, OrderBook>,
    order: Order,
    done: Order,
    trades: Seq<Trade>,
    id: u128,
)
    requires
        execution(before, after, order, done, trades),
        !holds_id(levels_in(before, order.symbol@, order.side.spec_opposite()), id),
        order.id != id,
    ensures
        forall|k: int| 0 <= k < trades.len() ==> (#[trigger] trades[k]).buy_order_id != id && trades[k].sell_order_id != id,
{
    let l = levels_in(before, order.symbol@, order.side.spec_opposite());
    let q = flatten(l);
    lemma_fills_member(l, order.side, effective_limit(order), order.remaining());
}

impl MatchingEngine {
    pub closed spec fn books(self) -> Map<Seq<char>, OrderBook> {
        books_in(self.orderbooks)
    }

    /// The trades handed to the trade channel so far, oldest first. Delivery
    /// is the channel's business: a trade is handed over even when no
    /// receiver is left.
    pub closed spec fn published(self) -> Seq<Trade> {
        self.sent@
    }

    /// Every book is well formed, uncrossed, and filed under its own symbol.
    pub open spec fn wf(self) -> bool {
        forall|k: Seq<char>|
            self.books().dom().contains(k) ==> {
                &&& (#[trigger] self.books()[k]).wf()
                &&& self.books()[k].uncrossed()
                &&& self.books()[k].spec_symbol() == k
            }
    }

    /// An engine with no books that publishes trades on `trade_sender`.
    pub fn new(trade_sender: UnboundedSender<Trade>) -> (r: MatchingEngine)
        ensures
            r.wf(),
            r.books().dom().is_empty(),
            r.published() == Seq::<Trade>::empty(),
    {
        MatchingEngine { orderbooks: books_new(), trade_sender, sent: Ghost(Seq::empty()) }
    }

    /// A copy of the book of `symbol`, which is created empty if missing.
    pub fn get_or_create_orderbook(&mut self, symbol: &str) -> (r: OrderBook)
        requires
            old(self).wf(),
        ensures
            final(self).wf(),
            final(self).books().dom() == old(self).books().dom().insert(symbol@),
            old(self).books().dom().contains(symbol@) ==> final(self).books() == old(self).books(),
            !old(self).books().dom().contains(symbol@) ==> final(self).books().remove(symbol@) == old(
                self,
            ).books() && final(self).books()[symbol@].bid_levels().len() == 0
                && final(self).books()[symbol@].ask_levels().len() == 0,
            r.same_as(final(self).books()[symbol@]),
            final(self).published() == old(self).published(),
    {
        let book = match books_take(&mut self.orderbooks, symbol) {
            Some(b) => b,
            None => OrderBook::new(String::from_str(symbol)),
        };
        let copy = book.duplicate();
        books_put(&mut self.orderbooks, String::from_str(symbol), book);
        proof {
            if old(self).books().dom().contains(symbol@) {
                assert(self.books() =~= old(self).books());
            } else {
                assert(self.books().remove(symbol@) =~= old(self).books());
            }
        }
        copy
    }

    /// Matches `order` against its symbol's book and queues its residual:
    /// the whole submission except publishing. Returns the order with its
    /// final status and the trades in execution order.
    pub fn execute_order(&mut self, order: Order) -> (r: (Order, Vec<Trade>))
        requires
            old(self).wf(),
            order.valid(),
        ensures
            final(self).wf(),
            final(self).published() == old(self).published(),
            execution(old(self).books(), final(self).books(), order, r.0, r.1@),
            final(self).books()[order.symbol@].uncrossed(),
            (r.0.filled_quantity == r.0.quantity) <==> (r.0.status == OrderStatus::Filled),
            r.0.order_type != OrderType::Market ==> ((0 < r.0.filled_quantity < r.0.quantity) <==> (r.0.status
                == OrderStatus::PartiallyFilled)),
            r.0.order_type == OrderType::Market ==> ((r.0.filled_quantity < r.0.quantity) <==> (r.0.status
                == OrderStatus::Cancelled)),
    {
        let symbol = order.symbol.clone();
        let ghost sym = symbol@;
        let ghost before = self.books();
        let mut book = match books_take(&mut self.orderbooks, symbol.as_str()) {
            Some(b) => b,
            None => OrderBook::new(symbol.clone()),
        };
        proof {
            assert(book.levels(Side::Buy) == levels_in(before, sym, Side::Buy));
            assert(book.levels(Side::Sell) == levels_in(before, sym, Side::Sell));
        }
        let ghost book0 = book;
        let mut incoming = order;
        incoming.status = OrderStatus::Open;
        let (matched, trades) = book.match_order(incoming);
        let mut done = matched;
        let market = match done.order_type {
            OrderType::Market => true,
            _ => false,
        };
        if done.filled_quantity >= done.quantity {
            done.status = OrderStatus::Filled;
        } else if market {
            done.status = OrderStatus::Cancelled;
        } else if done.filled_quantity > 0 {
            done.status = OrderStatus::PartiallyFilled;
        }
        if done.filled_quantity < done.quantity && !market {
            book.add_order(done.duplicate());
        }
        proof {
            let side = order.side;
            let opp = side.spec_opposite();
            lemma_match_uncrossed(
                book0.levels(side),
                book0.levels(opp),
                book.levels(opp),
                book.levels(side),
                incoming,
                matched,
                trades@,
                sym,
                done,
            );
        }
        books_put(&mut self.orderbooks, symbol, book);
        proof {
            assert(self.books().remove(sym) =~= before.remove(sym));
            assert(self.books().dom() =~= before.dom().insert(sym));
        }
        (done, trades)
    }

    /// Submits `order`: sets it open, matches it, queues its residual (a
    /// market order's residual is cancelled instead), and publishes the
    /// trades in execution order. A trade that cannot be
    /// delivered is dropped; the match stands.
    pub fn submit_order(&mut self, order: Order) -> (r: Result<Order, EngineError>)
        requires
            old(self).wf(),
            order.valid(),
        ensures
            final(self).wf(),
            r.is_ok(),
            exists|trades: Seq<Trade>|
                execution(old(self).books(), final(self).books(), order, r.unwrap(), trades)
                    && final(self).published() == old(self).published() + trades,
            final(self).books()[order.symbol@].uncrossed(),
            (r.unwrap().filled_quantity == r.unwrap().quantity) <==> (r.unwrap().status == OrderStatus::Filled),
            r.unwrap().order_type != OrderType::Market ==> ((0 < r.unwrap().filled_quantity < r.unwrap().quantity)
                <==> (r.unwrap().status == OrderStatus::PartiallyFilled)),
            r.unwrap().order_type == OrderType::Market ==> ((r.unwrap().filled_quantity < r.unwrap().quantity)
                <==> (r.unwrap().status == OrderStatus::Cancelled)),
    {
        let (done, trades) = self.execute_order(order);
        let ghost before = self.published();
        let mut i: usize = 0;
        while i < trades.len()
            invariant
                0 <= i <= trades.len(),
                self.wf(),
                self.books()[order.symbol@].uncrossed(),
                execution(old(self).books(), self.books(), order, done, trades@),
                self.published() == before + trades@.take(i as int),
            decreases trades.len() - i,
        {
            let trade = trades[i].duplicate();
            proof {
                self.sent = Ghost(self.sent@.push(trade));
                assert(before + trades@.take(i + 1) =~= (before + trades@.take(i as int)).push(trade));
            }
            let _delivered = publish(&self.trade_sender, trade);
            i = i + 1;
        }
        assert(trades@.take(i as int) =~= trades@);
        Ok(done)
    }

    /// Cancels the order `order_id` in the book of `symbol`, trying the bid
    /// side first and then the ask side.
    pub fn cancel_order(&mut self, order_id: u128, symbol: &str) -> (r: Result<(), EngineError>)
        requires
            old(self).wf(),
        ensures
            final(self).wf(),
            final(self).published() == old(self).published(),
            !old(self).books().dom().contains(symbol@) ==> r == Err::<(), EngineError>(EngineError::UnknownSymbol)
                && final(self).books() == old(self).books(),
            old(self).books().dom().contains(symbol@) ==> {
                let b = old(self).books()[symbol@];
                let b2 = final(self).books()[symbol@];
                &&& final(self).books().dom() == old(self).books().dom()
                &&& final(self).books().remove(symbol@) == old(self).books().remove(symbol@)
                &&& b2.spec_symbol() == b.spec_symbol()
                &&& r.is_ok() == (holds_id(b.bid_levels(), order_id) || holds_id(b.ask_levels(), order_id))
                &&& r.is_err() ==> r == Err::<(), EngineError>(EngineError::OrderNotFound) && b2.same_as(b)
                &&& holds_id(b.bid_levels(), order_id) ==> b2.ask_levels() == b.ask_levels() && exists|i: int, j: int|
                    first_at(b.bid_levels(), order_id, i, j) && b2.bid_levels() == ladder_remove(b.bid_levels(), i, j)
                &&& !holds_id(b.bid_levels(), order_id) && holds_id(b.ask_levels(), order_id) ==> b2.bid_levels()
                    == b.bid_levels() && exists|i: int, j: int|
                    first_at(b.ask_levels(), order_id, i, j) && b2.ask_levels() == ladder_remove(b.ask_levels(), i, j)
            },
    {
        let ghost before = self.books();
        match books_take(&mut self.orderbooks, symbol) {
            None => {
                assert(self.books() =~= before);
                Err(EngineError::UnknownSymbol)
            },
            Some(book) => {
                let mut book = book;
                let ghost b = book;
                let r = if book.remove_order(order_id, Side::Buy).is_some() {
                    Ok(())
                } else if book.remove_order(order_id, Side::Sell).is_some() {
                    Ok(())
                } else {
                    Err(EngineError::OrderNotFound)
                };
                proof {
                    if holds_id(b.bid_levels(), order_id) {
                        let (i, j) = choose|i: int, j: int|
                            first_at(b.bid_levels(), order_id, i, j) && book.bid_levels() == ladder_remove(b.bid_levels(), i, j);
                        lemma_remove_front(b.bid_levels(), Side::Buy, i, j);
                    } else if holds_id(b.ask_levels(), order_id) {
                        let (i, j) = choose|i: int, j: int|
                            first_at(b.ask_levels(), order_id, i, j) && book.ask_levels() == ladder_remove(b.ask_levels(), i, j);
                        lemma_remove_front(b.ask_levels(), Side::Sell, i, j);
                    }
                }
                books_put(&mut self.orderbooks, String::from_str(symbol), book);
                proof {
                    assert(self.books().remove(symbol@) =~= before.remove(symbol@));
                    assert(self.books().dom() =~= before.dom());
                }
                r
            },
        }
    }

    /// A snapshot of the book of `symbol`, if there is one.
    pub fn get_orderbook_snapshot(&self, symbol: &str) -> (r: Option<OrderBookSnapshot>)
        requires
            self.wf(),
        ensures
            r.is_some() == self.books().dom().contains(symbol@),
            r.is_some() ==> r.unwrap().symbol@ == symbol@ && r.unwrap().bids@ == summary(
                self.books()[symbol@].bid_levels(),
                SNAPSHOT_DEPTH as int,
            ) && r.unwrap().asks@ == summary(self.books()[symbol@].ask_levels(), SNAPSHOT_DEPTH as int),
    {
        match books_get(&self.orderbooks, symbol) {
            Some(book) => {
                assert(self.books()[symbol@].wf());
                Some(book.get_snapshot())
            },
            None => None,
        }
    }

    /// The symbols that have a book, in no particular order.
    pub fn get_all_symbols(&self) -> (r: Vec<String>)
        ensures
            forall|k: Seq<char>| self.books().dom().contains(k) <==> exists|i: int| 0 <= i < r@.len() && (#[trigger] r@[i])@ == k,
            forall|i: int, j: int| 0 <= i < j < r@.len() ==> (#[trigger] r@[i])@ != (#[trigger] r@[j])@,
    {
        books_symbols(&self.orderbooks)
    }
}

} // verus!
