use vstd::prelude::*;

use crate::types::{Order, Side};
use dashmap::DashMap;

verus! {

/// The risk limits, in minor units. `max_daily_loss` is a magnitude;
/// `max_leverage` is carried for reporting only.
#[derive(Debug, Clone, Copy, PartialEq, Eq, Structural)]
pub struct RiskLimits {
    pub max_position_size: u64,
    pub max_order_size: u64,
    pub max_daily_loss: u64,
    pub max_leverage: u64,
}

impl Default for RiskLimits {
    fn default() -> (r: RiskLimits)
        ensures
            r.max_position_size == 100,
            r.max_order_size == 10,
            r.max_daily_loss == 10000,
            r.max_leverage == 5,
    {
        RiskLimits { max_position_size: 100, max_order_size: 10, max_daily_loss: 10000, max_leverage: 5 }
    }
}

/// How many parts of a minor unit an average price is kept in.
pub const PRICE_SCALE: u128 = 100_000_000;

/// A long position in one symbol: its size, its average cost, and the profit
/// realized by selling out of it. `average_price` is in units of
/// 1 / `PRICE_SCALE` of a minor unit, so that a weighted average keeps its
/// fraction; `realized_pnl` is in minor units.
#[derive(Debug, Clone)]
pub struct Position {
    pub symbol: String,
    pub quantity: u64,
    pub average_price: u128,
    pub realized_pnl: i128,
}

/// Quantity, average price (scaled) and realized profit as integers.
pub type PositionModel = (int, int, int);

pub open spec fn abs_int(x: int) -> int {
    if x < 0 { -x } else { x }
}

/// `(price - average) * qty` in minor units, with the average scaled by
/// `PRICE_SCALE`, its fraction of a unit dropped towards zero.
pub open spec fn profit_at(price: int, avg: int, qty: int) -> int {
    let d = price * PRICE_SCALE - avg;
    if d >= 0 {
        d * qty / PRICE_SCALE as int
    } else {
        -((-d) * qty / PRICE_SCALE as int)
    }
}

/// The figures of `profit_at` fit a `u128` and the result an `i128`.
pub open spec fn profit_fits(price: int, avg: int, qty: int) -> bool {
    let d = abs_int(price * PRICE_SCALE - avg);
    d * qty <= u128::MAX && d * qty / PRICE_SCALE as int <= i128::MAX
}

/// The position after a fill of `qty` at `price` on `side`: a buy averages
/// the cost in; a sell realizes `(price - average) * qty` when long and
/// closes out to nothing once the quantity would reach zero or below.
pub open spec fn position_after(m: PositionModel, side: Side, price: int, qty: int) -> PositionModel {
    match side {
        Side::Buy => {
            let nq = m.0 + qty;
            (nq, if nq > 0 { (m.1 * m.0 + price * PRICE_SCALE * qty) / nq } else { m.1 }, m.2)
        },
        Side::Sell => {
            let realized = if m.0 > 0 { m.2 + profit_at(price, m.1, qty) } else { m.2 };
            if m.0 - qty <= 0 {
                (0, 0, realized)
            } else {
                (m.0 - qty, m.1, realized)
            }
        },
    }
}

pub open spec fn fits_i128(x: int) -> bool {
    i128::MIN <= x <= i128::MAX
}

/// The update's figures fit their integer types.
pub open spec fn position_update_fits(m: PositionModel, side: Side, price: int, qty: int) -> bool {
    match side {
        Side::Buy => m.0 + qty <= u64::MAX && m.1 * m.0 + price * PRICE_SCALE * qty <= u128::MAX,
        Side::Sell => m.0 > 0 ==> profit_fits(price, m.1, qty) && fits_i128(m.2 + profit_at(price, m.1, qty)),
    }
}

/// `profit_at(price, avg, qty)`; `None` when `profit_fits` fails.
fn profit(price: u64, avg: u128, qty: u64) -> (r: Option<i128>)
    ensures
        r.is_some() == profit_fits(price as int, avg as int, qty as int),
        r.is_some() ==> r.unwrap() == profit_at(price as int, avg as int, qty as int),
{
    let ps = price as u128 * PRICE_SCALE;
    let (d, below) = if ps >= avg {
        (ps - avg, false)
    } else {
        (avg - ps, true)
    };
    let m = match d.checked_mul(qty as u128) {
        Some(v) => v,
        None => return None,
    };
    let mag = m / PRICE_SCALE;
    if mag > i128::MAX as u128 {
        return None;
    }
    if below {
        Some(-(mag as i128))
    } else {
        Some(mag as i128)
    }
}

impl Position {
    pub open spec fn model(self) -> PositionModel {
        (self.quantity as int, self.average_price as int, self.realized_pnl as int)
    }

    /// A flat position.
    pub fn new(symbol: String) -> (r: Position)
        ensures
            r.symbol == symbol,
            r.model() == (0int, 0int, 0int),
    {
        Position { symbol, quantity: 0, average_price: 0, realized_pnl: 0 }
    }

    /// A field-by-field copy.
    pub fn duplicate(&self) -> (r: Position)
        ensures
            r == *self,
    {
        Position {
            symbol: self.symbol.clone(),
            quantity: self.quantity,
            average_price: self.average_price,
            realized_pnl: self.realized_pnl,
        }
    }

    /// Applies a fill of `quantity` at `price` on `side`. Returns false, and
    /// changes nothing, when a figure would not fit its type.
    pub fn update(&mut self, side: Side, price: u64, quantity: u64) -> (r: bool)
        ensures
            final(self).symbol == old(self).symbol,
            r == position_update_fits(old(self).model(), side, price as int, quantity as int),
            r ==> final(self).model() == position_after(old(self).model(), side, price as int, quantity as int),
            !r ==> *final(self) == *old(self),
    {
        match side {
            Side::Buy => {
                let nq = match self.quantity.checked_add(quantity) {
                    Some(v) => v,
                    None => return false,
                };
                let held = match self.average_price.checked_mul(self.quantity as u128) {
                    Some(v) => v,
                    None => {
                        proof {
                            let (a, q, x) = (self.average_price as int, self.quantity as int, (price as int)
                                * PRICE_SCALE * quantity);
                            assert(x >= 0) by (nonlinear_arith)
                                requires
                                    x == (price as int) * PRICE_SCALE * quantity,
                            ;
                        }
                        return false;
                    },
                };
                let ps = price as u128 * PRICE_SCALE;
                let bought = match ps.checked_mul(quantity as u128) {
                    Some(v) => v,
                    None => {
                        proof {
                            let (a, q) = (self.average_price as int, self.quantity as int);
                            assert(a * q >= 0) by (nonlinear_arith)
                                requires
                                    a >= 0,
                                    q >= 0,
                            ;
                        }
                        return false;
                    },
                };
                let total = match held.checked_add(bought) {
                    Some(v) => v,
                    None => return false,
                };
                if nq > 0 {
                    self.average_price = total / nq as u128;
                }
                self.quantity = nq;
                true
            },
            Side::Sell => {
                let mut realized = self.realized_pnl;
                if self.quantity > 0 {
                    let pnl = match profit(price, self.average_price, quantity) {
                        Some(v) => v,
                        None => return false,
                    };
                    realized = match realized.checked_add(pnl) {
                        Some(v) => v,
                        None => return false,
                    };
                }
                self.realized_pnl = realized;
                if quantity >= self.quantity {
                    self.quantity = 0;
                    self.average_price = 0;
                } else {
                    self.quantity = self.quantity - quantity;
                }
                true
            },
        }
    }

    /// `(current_price - average_price) * quantity` in minor units, zero when
    /// flat; `None` when a figure does not fit.
    pub fn unrealized_pnl(&self, current_price: u64) -> (r: Option<i128>)
        ensures
            self.quantity == 0 ==> r == Some(0i128),
            self.quantity > 0 ==> r.is_some() == profit_fits(
                current_price as int,
                self.average_price as int,
                self.quantity as int,
            ),
            self.quantity > 0 && r.is_some() ==> r.unwrap() == profit_at(
                current_price as int,
                self.average_price as int,
                self.quantity as int,
            ),
    {
        if self.quantity == 0 {
            return Some(0);
        }
        profit(current_price, self.average_price, self.quantity)
    }
}

// `DashMap` itself is declared to the verifier beside the engine's books.

/// The positions that a map holds, by symbol.
pub uninterp spec fn positions_in(m: DashMap<String, Position>) -> Map<Seq<char>, Position>;

/// Relies on dashmap::DashMap::new: the map starts empty.
#[verifier::external_body]
fn positions_new() -> (r: DashMap<String, Position>)
    ensures
        positions_in(r).dom().is_empty(),
{
    DashMap::new()
}

/// Relies on dashmap::DashMap::remove: takes the entry of `symbol` out of the
/// map and hands its position over.
#[verifier::external_body]
fn positions_take(m: &mut DashMap<String, Position>, symbol: &str) -> (r: Option<Position>)
    ensures
        r.is_some() == positions_in(*old(m)).dom().contains(symbol@),
        r.is_some() ==> r.unwrap() == positions_in(*old(m))[symbol@],
        positions_in(*final(m)) == positions_in(*old(m)).remove(symbol@),
{
    m.remove(symbol).map(|(_, p)| p)
}

/// Relies on dashmap::DashMap::insert: sets the entry of `symbol`, replacing
/// any earlier one.
#[verifier::external_body]
fn positions_put(m: &mut DashMap<String, Position>, symbol: String, p: Position)
    ensures
        positions_in(*final(m)) == positions_in(*old(m)).insert(symbol@, p),
{
    m.insert(symbol, p);
}

/// Relies on dashmap::DashMap::get: a copy, made by `Position::duplicate`, of
/// the position of `symbol`.
#[verifier::external_body]
fn positions_get(m: &DashMap<String, Position>, symbol: &str) -> (r: Option<Position>)
    ensures
        r.is_some() == positions_in(*m).dom().contains(symbol@),
        r.is_some() ==> r.unwrap() == positions_in(*m)[symbol@],
{
    m.get(symbol).map(|p| p.duplicate())
}

/// Relies on dashmap::DashMap::iter: each entry once, its value copied by
/// `Position::duplicate`, in an order that is not specified.
#[verifier::external_body]
fn positions_list(m: &DashMap<String, Position>) -> (r: Vec<(String, Position)>)
    ensures
        forall|i: int| 0 <= i < r@.len() ==> positions_in(*m).dom().contains((#[trigger] r@[i]).0@) && r@[i].1
            == positions_in(*m)[r@[i].0@],
        forall|k: Seq<char>| #[trigger] positions_in(*m).dom().contains(k) ==> exists|i: int| 0 <= i < r@.len() && (#[trigger] r@[i]).0@ == k,
        forall|i: int, j: int| 0 <= i < j < r@.len() ==> (#[trigger] r@[i]).0@ != (#[trigger] r@[j]).0@,
{
    m.iter().map(|e| (e.key().clone(), e.value().duplicate())).collect()
}

/// Why the risk gate turned an order away.
#[derive(Debug, Clone, Copy, PartialEq, Eq, Structural)]
pub enum Rejection {
    /// The order is larger than `max_order_size`.
    OrderSize,
    /// Filling it would take the position past `max_position_size`.
    PositionSize,
    /// The day's loss is past `max_daily_loss`.
    DailyLoss,
}

/// The model of the position of `symbol`: flat where there is none.
pub open spec fn position_of(m: Map<Seq<char>, Position>, symbol: Seq<char>) -> PositionModel {
    if m.dom().contains(symbol) {
        m[symbol].model()
    } else {
        (0, 0, 0)
    }
}

/// The pre-trade check, in order: order size, projected position size,
/// daily loss.
pub open spec fn check_result(limits: RiskLimits, held: int, daily: int, order: Order) -> Result<(), Rejection> {
    let projected = match order.side {
        Side::Buy => abs_int(held + order.quantity),
        Side::Sell => abs_int(held - order.quantity),
    };
    if order.quantity > limits.max_order_size {
        Err(Rejection::OrderSize)
    } else if projected > limits.max_position_size {
        Err(Rejection::PositionSize)
    } else if daily < -(limits.max_daily_loss as int) {
        Err(Rejection::DailyLoss)
    } else {
        Ok(())
    }
}

/// `s` lists the positions of `m`: each once, each under its symbol.
pub open spec fn lists(s: Seq<Position>, m: Map<Seq<char>, Position>) -> bool {
    &&& forall|i: int| 0 <= i < s.len() ==> m.dom().contains((#[trigger] s[i]).symbol@) && m[s[i].symbol@] == s[i]
    &&& forall|k: Seq<char>| #[trigger] m.dom().contains(k) ==> exists|i: int| 0 <= i < s.len() && (#[trigger] s[i]).symbol@ == k
    &&& forall|i: int, j: int| 0 <= i < j < s.len() ==> (#[trigger] s[i]).symbol@ != (#[trigger] s[j]).symbol@
}

/// The summed `quantity * average_price` of a list of positions.
pub open spec fn exposure_of(s: Seq<Position>) -> int
    decreases s.len(),
{
    if s.len() == 0 {
        0
    } else {
        exposure_of(s.drop_last()) + exposure_term(s.last())
    }
}

/// One position's exposure in minor units: quantity times average price,
/// the fraction of a unit dropped.
pub open spec fn exposure_term(p: Position) -> int {
    p.quantity * p.average_price / PRICE_SCALE as int
}

/// Each position's `quantity * average_price` fits a `u128`.
pub open spec fn products_fit(s: Seq<Position>) -> bool {
    forall|i: int| 0 <= i < s.len() ==> (#[trigger] s[i]).quantity * s[i].average_price <= u128::MAX
}

/// The risk gate: limits, per-symbol positions and the day's realized profit.
pub struct RiskManager {
    limits: RiskLimits,
    positions: DashMap<String, Position>,
    daily_pnl: i128,
}

impl RiskManager {
    pub closed spec fn spec_limits(self) -> RiskLimits {
        self.limits
    }

    pub closed spec fn positions(self) -> Map<Seq<char>, Position> {
        positions_in(self.positions)
    }

    pub closed spec fn daily(self) -> int {
        self.daily_pnl as int
    }

    /// Every position is filed under its own symbol.
    pub open spec fn wf(self) -> bool {
        forall|k: Seq<char>| #[trigger] self.positions().dom().contains(k) ==> self.positions()[k].symbol@ == k
    }

    /// A gate with no positions and no profit or loss yet.
    pub fn new(limits: RiskLimits) -> (r: RiskManager)
        ensures
            r.wf(),
            r.spec_limits() == limits,
            r.positions().dom().is_empty(),
            r.daily() == 0,
    {
        RiskManager { limits, positions: positions_new(), daily_pnl: 0 }
    }

    /// Checks `order` against the limits and the position of its symbol.
    pub fn check_order(&self, order: &Order) -> (r: Result<(), Rejection>)
        ensures
            r == check_result(self.spec_limits(), position_of(self.positions(), order.symbol@).0, self.daily(), *order),
    {
        let position = self.get_position(order.symbol.as_str());
        let held = position.quantity as i128;
        let q = order.quantity as i128;
        let projected: i128 = match order.side {
            Side::Buy => held + q,
            Side::Sell => if held >= q { held - q } else { q - held },
        };
        if order.quantity > self.limits.max_order_size {
            return Err(Rejection::OrderSize);
        }
        if projected > self.limits.max_position_size as i128 {
            return Err(Rejection::PositionSize);
        }
        if self.daily_pnl < -(self.limits.max_daily_loss as i128) {
            return Err(Rejection::DailyLoss);
        }
        Ok(())
    }

    /// Applies a trade of `quantity` at `price` on `side` to the position of
    /// `symbol`, created flat if missing, and adds the change in its realized
    /// profit to the day's. Returns false, changing no figure, when a result
    /// would not fit its field.
    pub fn update_position(&mut self, symbol: &str, side: Side, price: u64, quantity: u64) -> (r: bool)
        requires
            old(self).wf(),
        ensures
            final(self).wf(),
            final(self).spec_limits() == old(self).spec_limits(),
            final(self).positions().dom() == old(self).positions().dom().insert(symbol@),
            final(self).positions().remove(symbol@) == old(self).positions().remove(symbol@),
            ({
                let m0 = position_of(old(self).positions(), symbol@);
                let m1 = position_after(m0, side, price as int, quantity as int);
                &&& r == (position_update_fits(m0, side, price as int, quantity as int) && fits_i128(
                    old(self).daily() + (m1.2 - m0.2),
                ))
                &&& r ==> position_of(final(self).positions(), symbol@) == m1
                &&& !r ==> position_of(final(self).positions(), symbol@) == m0
            }),
            final(self).daily() - old(self).daily() == position_of(final(self).positions(), symbol@).2 - position_of(
                old(self).positions(),
                symbol@,
            ).2,
    {
        let ghost before = self.positions();
        let mut pos = match positions_take(&mut self.positions, symbol) {
            Some(p) => p,
            None => Position::new(String::from_str(symbol)),
        };
        let mut next = pos.duplicate();
        let ok = if next.update(side, price, quantity) {
            let delta = next.realized_pnl - pos.realized_pnl;
            match self.daily_pnl.checked_add(delta) {
                Some(d) => {
                    self.daily_pnl = d;
                    pos = next;
                    true
                },
                None => false,
            }
        } else {
            false
        };
        positions_put(&mut self.positions, String::from_str(symbol), pos);
        proof {
            assert(self.positions().remove(symbol@) =~= before.remove(symbol@));
            assert(self.positions().dom() =~= before.dom().insert(symbol@));
        }
        ok
    }

    /// A copy of the position of `symbol`; a flat one if there is none.
    pub fn get_position(&self, symbol: &str) -> (r: Position)
        ensures
            r.symbol@ == symbol@ || self.positions().dom().contains(symbol@),
            self.positions().dom().contains(symbol@) ==> r == self.positions()[symbol@],
            r.model() == position_of(self.positions(), symbol@),
    {
        match positions_get(&self.positions, symbol) {
            Some(p) => p,
            None => Position::new(String::from_str(symbol)),
        }
    }

    /// Copies of all positions, in no particular order.
    pub fn get_all_positions(&self) -> (r: Vec<Position>)
        requires
            self.wf(),
        ensures
            lists(r@, self.positions()),
    {
        let entries = positions_list(&self.positions);
        let mut out: Vec<Position> = Vec::new();
        let mut i: usize = 0;
        while i < entries.len()
            invariant
                0 <= i <= entries.len(),
                self.wf(),
                out@.len() == i,
                forall|k: int| 0 <= k < i ==> #[trigger] out@[k] == entries@[k].1,
                forall|k: int| 0 <= k < entries@.len() ==> self.positions().dom().contains((#[trigger] entries@[k]).0@)
                    && entries@[k].1 == self.positions()[entries@[k].0@],
            decreases entries.len() - i,
        {
            out.push(entries[i].1.duplicate());
            i = i + 1;
        }
        proof {
            assert forall|k: int| 0 <= k < out@.len() implies (#[trigger] out@[k]).symbol@ == entries@[k].0@ by {
                assert(self.positions().dom().contains(entries@[k].0@));
            }
            assert forall|k: Seq<char>| #[trigger] self.positions().dom().contains(k) implies exists|i: int|
                0 <= i < out@.len() && (#[trigger] out@[i]).symbol@ == k by {
                let i = choose|i: int| 0 <= i < entries@.len() && (#[trigger] entries@[i]).0@ == k;
                assert(out@[i].symbol@ == k);
            }
            assert forall|a: int, b: int| 0 <= a < b < out@.len() implies (#[trigger] out@[a]).symbol@
                != (#[trigger] out@[b]).symbol@ by {
                assert(entries@[a].0@ != entries@[b].0@);
            }
        }
        out
    }

    /// The day's realized profit so far.
    pub fn get_daily_pnl(&self) -> (r: i128)
        ensures
            r == self.daily(),
    {
        self.daily_pnl
    }

    /// Starts a new day: the day's profit goes back to zero.
    pub fn reset_daily_pnl(&mut self)
        ensures
            final(self).daily() == 0,
            final(self).positions() == old(self).positions(),
            final(self).spec_limits() == old(self).spec_limits(),
    {
        self.daily_pnl = 0;
    }

    /// The summed exposure, quantity times average price, over all
    /// positions, in minor units; `None` when a figure does not fit a `u128`.
    pub fn get_total_exposure(&self) -> (r: Option<u128>)
        requires
            self.wf(),
        ensures
            exists|s: Seq<Position>|
                lists(s, self.positions()) && r == (if products_fit(s) && exposure_of(s) <= u128::MAX {
                    Some(exposure_of(s) as u128)
                } else {
                    None::<u128>
                }),
    {
        let all = self.get_all_positions();
        let r = exposure_sum(&all);
        assert(lists(all@, self.positions()));
        r
    }

    /// The day's loss is past `max_daily_loss`. Advisory only.
    pub fn check_circuit_breaker(&self) -> (r: bool)
        ensures
            r == (self.daily() < -(self.spec_limits().max_daily_loss as int)),
    {
        self.daily_pnl < -(self.limits.max_daily_loss as i128)
    }
}

/// The realized changes of the first `n` steps of a run: step `i` takes
/// `states[i]` to `states[i + 1]` and is about the position of `symbols[i]`.
pub open spec fn realized_changes(states: Seq<RiskManager>, symbols: Seq<Seq<char>>, n: int) -> int
    decreases n,
{
    if n <= 0 {
        0
    } else {
        realized_changes(states, symbols, n - 1) + (position_of(states[n].positions(), symbols[n - 1]).2
            - position_of(states[n - 1].positions(), symbols[n - 1]).2)
    }
}

/// The day's figure is the sum of the realized changes since the last reset:
/// over a run that starts from a reset (or a new gate) and goes on by
/// updates, each of which moves the day's figure by the change in its
/// position's realized profit as `update_position` ensures (a call that
/// reads changes neither figure and counts as a step with no change).
pub proof fn lemma_daily_is_sum(states: Seq<RiskManager>, symbols: Seq<Seq<char>>)
    requires
        states.len() == symbols.len() + 1,
        states[0].daily() == 0,
        forall|i: int|
            0 <= i < symbols.len() ==> (#[trigger] states[i + 1]).daily() - states[i].daily() == position_of(
                states[i + 1].positions(),
                symbols[i],
            ).2 - position_of(states[i].positions(), symbols[i]).2,
    ensures
        states.last().daily() == realized_changes(states, symbols, symbols.len() as int),
{
    lemma_daily_prefix(states, symbols, symbols.len() as int);
}

proof fn lemma_daily_prefix(states: Seq<RiskManager>, symbols: Seq<Seq<char>>, n: int)
    requires
        states.len() == symbols.len() + 1,
        0 <= n <= symbols.len(),
        states[0].daily() == 0,
        forall|i: int|
            0 <= i < symbols.len() ==> (#[trigger] states[i + 1]).daily() - states[i].daily() == position_of(
                states[i + 1].positions(),
                symbols[i],
            ).2 - position_of(states[i].positions(), symbols[i]).2,
    ensures
        states[n].daily() == realized_changes(states, symbols, n),
    decreases n,
{
    if n > 0 {
        lemma_daily_prefix(states, symbols, n - 1);
        assert(states[(n - 1) + 1].daily() - states[n - 1].daily() == position_of(
            states[(n - 1) + 1].positions(),
            symbols[n - 1],
        ).2 - position_of(states[n - 1].positions(), symbols[n - 1]).2);
    }
}

/// The summed exposure of a list of positions; `None` when a figure does not
/// fit a `u128`.
fn exposure_sum(all: &Vec<Position>) -> (r: Option<u128>)
    ensures
        r == (if products_fit(all@) && exposure_of(all@) <= u128::MAX {
            Some(exposure_of(all@) as u128)
        } else {
            None::<u128>
        }),
{
    let mut total: u128 = 0;
    let mut i: usize = 0;
    while i < all.len()
        invariant
            0 <= i <= all.len(),
            total == exposure_of(all@.take(i as int)),
            products_fit(all@.take(i as int)),
        decreases all.len() - i,
    {
        let p = &all[i];
        assert(all@.take(i + 1).drop_last() =~= all@.take(i as int));
        assert(all@.take(i + 1).last() == all@[i as int]);
        let product = match (p.quantity as u128).checked_mul(p.average_price) {
            Some(v) => v,
            None => {
                assert(!products_fit(all@));
                return None;
            },
        };
        let term = product / PRICE_SCALE;
        assert(term == exposure_term(all@[i as int]));
        proof {
            lemma_exposure_nonneg(all@.take(i + 1));
        }
        match total.checked_add(term) {
            Some(t) => total = t,
            None => {
                proof {
                    assert(exposure_of(all@.take(i + 1)) == total + term);
                    lemma_exposure_prefix(all@, i + 1);
                }
                return None;
            },
        }
        assert forall|k: int| 0 <= k < i + 1 implies (#[trigger] all@.take(i + 1)[k]).quantity * all@.take(
            i + 1,
        )[k].average_price <= u128::MAX by {
            if k < i {
                assert(all@.take(i + 1)[k] == all@.take(i as int)[k]);
            }
        }
        i = i + 1;
    }
    assert(all@.take(i as int) =~= all@);
    Some(total)
}

proof fn lemma_term_nonneg(p: Position)
    ensures
        exposure_term(p) >= 0,
{
    let x = p.quantity * p.average_price;
    assert(x >= 0) by (nonlinear_arith)
        requires
            x == p.quantity * p.average_price,
            p.quantity >= 0,
            p.average_price >= 0,
    ;
}

proof fn lemma_exposure_nonneg(s: Seq<Position>)
    ensures
        exposure_of(s) >= 0,
    decreases s.len(),
{
    if s.len() > 0 {
        lemma_exposure_nonneg(s.drop_last());
        lemma_term_nonneg(s.last());
    }
}

/// The exposure of a list is at least that of any prefix.
proof fn lemma_exposure_prefix(s: Seq<Position>, n: int)
    requires
        0 <= n <= s.len(),
    ensures
        exposure_of(s.take(n)) <= exposure_of(s),
    decreases s.len() - n,
{
    if n < s.len() {
        lemma_exposure_prefix(s, n + 1);
        assert(s.take(n + 1).drop_last() =~= s.take(n));
        lemma_term_nonneg(s[n]);
    } else {
        assert(s.take(n) =~= s);
    }
}

} // verus!
