use vstd::prelude::*;

use crate::types::{fresh_id, Side, Trade};

verus! {

/// The largest magnitude, in minor units, of a figure that a backtest keeps:
/// differences of two such figures, scaled to basis points, stay exact.
pub const FIGURE_BOUND: i128 = 0x10_0000_0000_0000_0000_0000_0000;

pub open spec fn in_bound(x: int) -> bool {
    -FIGURE_BOUND <= x <= FIGURE_BOUND
}

/// Capital, position (negative when short) and position price after a
/// signal, with the quantity traded; `None` when a buy costs more than the
/// capital on hand.
pub open spec fn signal_step(cap: int, pos: int, pp: int, side: Side, price: int, qty: int) -> Option<(int, int, int, int)> {
    match side {
        Side::Buy => if pos >= 0 {
            let cost = price * qty;
            if cost <= cap {
                let npos = pos + qty;
                Some((cap - cost, npos, (pp * pos + cost) / npos, qty))
            } else {
                None
            }
        } else {
            let npos = pos + qty;
            Some((cap + (pp - price) * qty, npos, if npos == 0 { 0 } else { pp }, qty))
        },
        Side::Sell => if pos > 0 {
            let sq = if qty <= pos { qty } else { pos };
            let npos = pos - sq;
            Some((cap + price * sq + (price - pp) * sq, npos, if npos == 0 { 0 } else { pp }, sq))
        } else {
            Some((cap + price * qty, pos - qty, price, qty))
        },
    }
}

/// Every figure that the signal computes fits an `i128`, and those it keeps
/// are within `FIGURE_BOUND`.
pub open spec fn signal_fits(cap: int, pos: int, pp: int, side: Side, price: int, qty: int) -> bool {
    &&& fits128(price * qty)
    &&& match side {
        Side::Buy => if pos >= 0 {
            fits128(pp * pos) && fits128(pp * pos + price * qty)
        } else {
            fits128((pp - price) * qty) && fits128(cap + (pp - price) * qty)
        },
        Side::Sell => if pos > 0 {
            let sq = if qty <= pos { qty } else { pos };
            fits128(price * sq) && fits128((price - pp) * sq) && fits128(cap + price * sq)
        } else {
            fits128(cap + price * qty)
        },
    }
    &&& match signal_step(cap, pos, pp, side, price, qty) {
        Some(s) => in_bound(s.0) && in_bound(s.1) && in_bound(s.2),
        None => true,
    }
}

pub open spec fn fits128(x: int) -> bool {
    i128::MIN <= x <= i128::MAX
}

/// The equity at `price`: capital plus the position marked to `price`
/// (a short marked as `position * (2 * position_price - price)`).
pub open spec fn equity_at(cap: int, pos: int, pp: int, price: int) -> int {
    cap + if pos > 0 { pos * price } else { pos * (2 * pp - price) }
}

pub open spec fn max_int(a: int, b: int) -> int {
    if a >= b { a } else { b }
}

/// The running peak of the equity curve after its first `n` points, from
/// `init`.
pub open spec fn peak_through(c: Seq<i128>, init: int, n: int) -> int
    decreases n,
{
    if n <= 0 {
        init
    } else {
        max_int(peak_through(c, init, n - 1), c[n - 1] as int)
    }
}

/// The largest drawdown from the running peak over the first `n` points, in
/// basis points of the peak, rounded down.
pub open spec fn max_drawdown_through(c: Seq<i128>, init: int, n: int) -> int
    decreases n,
{
    if n <= 0 {
        0
    } else {
        let peak = peak_through(c, init, n);
        max_int(max_drawdown_through(c, init, n - 1), (peak - c[n - 1]) * 10000 / peak)
    }
}

/// The profit of a round trip: the price move times the entry quantity,
/// taken as a magnitude.
pub open spec fn round_trip_pnl(entry: Trade, exit: Trade) -> int {
    if entry.price < exit.price {
        (exit.price - entry.price) * entry.quantity
    } else {
        (entry.price - exit.price) * entry.quantity
    }
}

/// How many of the first `n` round trips (trades paired in order) made a
/// profit.
pub open spec fn winning_through(t: Seq<Trade>, n: int) -> int
    decreases n,
{
    if n <= 0 {
        0
    } else {
        winning_through(t, n - 1) + if round_trip_pnl(t[2 * n - 2], t[2 * n - 1]) > 0 { 1int } else { 0int }
    }
}

/// One bar of price history, in minor units.
#[derive(Debug, Clone, Copy, PartialEq, Eq, Structural)]
pub struct OHLCV {
    /// Milliseconds since the Unix epoch, UTC.
    pub timestamp: i64,
    pub open: u64,
    pub high: u64,
    pub low: u64,
    pub close: u64,
    pub volume: u64,
}

/// The integer figures of a backtest. Ratios in floating point are left to
/// the caller.
#[derive(Debug, Clone)]
pub struct BacktestResult {
    pub total_trades: usize,
    pub winning_trades: usize,
    pub losing_trades: usize,
    pub total_pnl: i128,
    /// In basis points of the peak.
    pub max_drawdown_bps: i128,
    pub trades: Vec<Trade>,
}

/// A single-instrument simulation: signals trade at the given price with no
/// book, and the equity curve records marks.
pub struct BacktestEngine {
    initial_capital: i128,
    current_capital: i128,
    position: i128,
    position_price: i128,
    trades: Vec<Trade>,
    equity_curve: Vec<i128>,
}

impl BacktestEngine {
    pub closed spec fn initial(self) -> int {
        self.initial_capital as int
    }

    /// Capital, position and position price.
    pub closed spec fn state(self) -> (int, int, int) {
        (self.current_capital as int, self.position as int, self.position_price as int)
    }

    pub closed spec fn spec_trades(self) -> Seq<Trade> {
        self.trades@
    }

    pub closed spec fn curve(self) -> Seq<i128> {
        self.equity_curve@
    }

    pub open spec fn wf(self) -> bool {
        &&& in_bound(self.initial())
        &&& in_bound(self.state().0)
        &&& in_bound(self.state().1)
        &&& 0 <= self.state().2 <= FIGURE_BOUND
        &&& forall|i: int| 0 <= i < self.curve().len() ==> in_bound(#[trigger] self.curve()[i] as int)
    }

    /// A flat account holding `initial_capital`, its curve starting there.
    pub fn new(initial_capital: i128) -> (r: BacktestEngine)
        requires
            in_bound(initial_capital as int),
        ensures
            r.wf(),
            r.initial() == initial_capital,
            r.state() == (initial_capital as int, 0int, 0int),
            r.spec_trades().len() == 0,
            r.curve() == seq![initial_capital],
    {
        let mut equity_curve: Vec<i128> = Vec::new();
        equity_curve.push(initial_capital);
        let r = BacktestEngine {
            initial_capital,
            current_capital: initial_capital,
            position: 0,
            position_price: 0,
            trades: Vec::new(),
            equity_curve,
        };
        assert(r.curve() =~= seq![initial_capital]);
        r
    }

    /// The equity curve so far.
    pub fn equity_curve(&self) -> (r: &Vec<i128>)
        ensures
            r@ == self.curve(),
    {
        &self.equity_curve
    }

    /// Trades `quantity` at `price` on `side`: a buy opens or adds to a long
    /// (if the capital covers it) or covers a short; a sell closes at most
    /// the long held or opens a short. Returns the simulated trade, also
    /// recorded; `None`, changing nothing, when the capital is short or a
    /// figure would not fit.
    pub fn execute_signal(&mut self, symbol: &str, side: Side, price: u64, quantity: u64, timestamp: i64) -> (r: Option<Trade>)
        requires
            old(self).wf(),
            quantity > 0,
        ensures
            final(self).wf(),
            final(self).initial() == old(self).initial(),
            final(self).curve() == old(self).curve(),
            ({
                let (cap, pos, pp) = old(self).state();
                let step = signal_step(cap, pos, pp, side, price as int, quantity as int);
                &&& r.is_some() == (step.is_some() && signal_fits(cap, pos, pp, side, price as int, quantity as int))
                &&& r.is_some() ==> {
                    let s = step.unwrap();
                    &&& final(self).state() == (s.0, s.1, s.2)
                    &&& final(self).spec_trades() == old(self).spec_trades().push(r.unwrap())
                    &&& r.unwrap().symbol@ == symbol@
                    &&& r.unwrap().price == price
                    &&& r.unwrap().quantity == s.3
                    &&& r.unwrap().timestamp == timestamp
                }
                &&& r.is_none() ==> final(self).state() == old(self).state() && final(self).spec_trades()
                    == old(self).spec_trades()
            }),
    {
        let cap = self.current_capital;
        let pos = self.position;
        let pp = self.position_price;
        let p = price as i128;
        let q = quantity as i128;
        let ghost step = signal_step(cap as int, pos as int, pp as int, side, p as int, q as int);
        let notional = match p.checked_mul(q) {
            Some(v) => v,
            None => return None,
        };
        let (ncap, npos, npp, traded): (i128, i128, i128, i128) = match side {
            Side::Buy => if pos >= 0 {
                if notional > cap {
                    return None;
                }
                let held = match pp.checked_mul(pos) {
                    Some(v) => v,
                    None => return None,
                };
                let total = match held.checked_add(notional) {
                    Some(v) => v,
                    None => return None,
                };
                let npos = pos + q;
                proof {
                    assert(total >= 0) by (nonlinear_arith)
                        requires
                            pp >= 0,
                            pos >= 0,
                            notional >= 0,
                            total == pp * pos + notional,
                    ;
                    assert(total / npos <= total) by (nonlinear_arith)
                        requires
                            total >= 0,
                            npos >= 1,
                    ;
                }
                (cap - notional, npos, total / npos, q)
            } else {
                let d = pp - p;
                let pnl = match d.checked_mul(q) {
                    Some(v) => v,
                    None => return None,
                };
                let ncap = match cap.checked_add(pnl) {
                    Some(v) => v,
                    None => return None,
                };
                let npos = pos + q;
                (ncap, npos, if npos == 0 { 0 } else { pp }, q)
            },
            Side::Sell => if pos > 0 {
                let sq = if q <= pos { q } else { pos };
                proof {
                    assert(p * sq <= p * q) by (nonlinear_arith)
                        requires
                            p >= 0,
                            0 <= sq <= q,
                    ;
                    assert(p * sq >= 0) by (nonlinear_arith)
                        requires
                            p >= 0,
                            sq >= 0,
                    ;
                }
                let proceeds = p * sq;
                let d = p - pp;
                let pnl = match d.checked_mul(sq) {
                    Some(v) => v,
                    None => return None,
                };
                let gross = match cap.checked_add(proceeds) {
                    Some(v) => v,
                    None => return None,
                };
                let ncap = match gross.checked_add(pnl) {
                    Some(v) => v,
                    None => return None,
                };
                let npos = pos - sq;
                (ncap, npos, if npos == 0 { 0 } else { pp }, sq)
            } else {
                let ncap = match cap.checked_add(notional) {
                    Some(v) => v,
                    None => return None,
                };
                (ncap, pos - q, p, q)
            },
        };
        if ncap > FIGURE_BOUND || ncap < -FIGURE_BOUND || npos > FIGURE_BOUND || npos < -FIGURE_BOUND || npp > FIGURE_BOUND
            || npp < -FIGURE_BOUND {
            return None;
        }
        let trade = Trade {
            id: fresh_id(),
            symbol: String::from_str(symbol),
            price,
            quantity: traded as u64,
            buy_order_id: fresh_id(),
            sell_order_id: fresh_id(),
            timestamp,
        };
        self.current_capital = ncap;
        self.position = npos;
        self.position_price = npp;
        self.trades.push(trade.duplicate());
        assert(npp >= 0);
        assert(self.curve() == old(self).curve());
        Some(trade)
    }

    /// Marks the account to `current_price` and appends the equity to the
    /// curve. Returns false, changing nothing, when the equity would not fit.
    pub fn update_equity(&mut self, current_price: u64) -> (r: bool)
        requires
            old(self).wf(),
        ensures
            final(self).wf(),
            final(self).initial() == old(self).initial(),
            final(self).state() == old(self).state(),
            final(self).spec_trades() == old(self).spec_trades(),
            ({
                let (cap, pos, pp) = old(self).state();
                let e = equity_at(cap, pos, pp, current_price as int);
                &&& r == in_bound(e)
                &&& r ==> final(self).curve() == old(self).curve().push(e as i128)
                &&& !r ==> final(self).curve() == old(self).curve()
            }),
    {
        let pos = self.position;
        let c = current_price as i128;
        let mark: i128 = if pos > 0 {
            c
        } else {
            2 * self.position_price - c
        };
        let value = match pos.checked_mul(mark) {
            Some(v) => v,
            None => return false,
        };
        let equity = match self.current_capital.checked_add(value) {
            Some(v) => v,
            None => return false,
        };
        if equity > FIGURE_BOUND || equity < -FIGURE_BOUND {
            return false;
        }
        self.equity_curve.push(equity);
        assert forall|i: int| 0 <= i < self.curve().len() implies in_bound(#[trigger] self.curve()[i] as int) by {
            if i < old(self).curve().len() {
                assert(self.curve()[i] == old(self).curve()[i]);
            }
        }
        true
    }

    /// The backtest's figures: round trips pair the trades in order (first
    /// with second, third with fourth, ...), a round trip with a positive
    /// profit is a win, and the drawdown is measured from the running peak
    /// of the curve, which starts at the initial capital.
    pub fn get_results(&self) -> (r: BacktestResult)
        requires
            self.wf(),
            self.initial() > 0,
        ensures
            r.total_pnl == self.state().0 - self.initial(),
            r.total_trades == self.spec_trades().len() / 2,
            r.winning_trades == winning_through(self.spec_trades(), (self.spec_trades().len() / 2) as int),
            r.losing_trades == r.total_trades - r.winning_trades,
            r.max_drawdown_bps == max_drawdown_through(self.curve(), self.initial(), self.curve().len() as int),
            r.trades@ == self.spec_trades(),
    {
        let total_pnl = self.current_capital - self.initial_capital;
        let n = self.trades.len();
        let pairs = n / 2;
        let mut winning: usize = 0;
        let mut k: usize = 0;
        while k < pairs
            invariant
                n == self.trades@.len(),
                pairs == n / 2,
                0 <= k <= pairs,
                winning == winning_through(self.trades@, k as int),
                winning <= k,
            decreases pairs - k,
        {
            assert(2 * k + 1 < self.trades@.len());
            let entry = &self.trades[2 * k];
            let exit = &self.trades[2 * k + 1];
            let win = if entry.price < exit.price {
                entry.quantity > 0
            } else {
                entry.price > exit.price && entry.quantity > 0
            };
            proof {
                let q = entry.quantity as int;
                let pnl = round_trip_pnl(*entry, *exit);
                if entry.price < exit.price {
                    let a = exit.price - entry.price;
                    assert(pnl == a * q);
                    assert(a > 0);
                    assert(q > 0 ==> a * q > 0) by (nonlinear_arith)
                        requires
                            a > 0,
                    ;
                    assert(q == 0 ==> a * q == 0) by (nonlinear_arith);
                } else {
                    let b = entry.price - exit.price;
                    assert(pnl == b * q);
                    assert(b > 0 && q > 0 ==> b * q > 0) by (nonlinear_arith);
                    assert(b == 0 || q == 0 ==> b * q == 0) by (nonlinear_arith);
                }
                assert(win == (pnl > 0));
            }
            if win {
                winning = winning + 1;
            }
            k = k + 1;
        }
        let mut peak = self.initial_capital;
        let mut worst: i128 = 0;
        let mut i: usize = 0;
        while i < self.equity_curve.len()
            invariant
                self.wf(),
                self.initial() > 0,
                0 <= i <= self.equity_curve@.len(),
                peak == peak_through(self.equity_curve@, self.initial(), i as int),
                worst == max_drawdown_through(self.equity_curve@, self.initial(), i as int),
                0 < peak <= FIGURE_BOUND,
                0 <= worst <= 2 * FIGURE_BOUND * 10000,
            decreases self.equity_curve@.len() - i,
        {
            let e = self.equity_curve[i];
            if e > peak {
                peak = e;
            }
            proof {
                assert(in_bound(self.curve()[i as int] as int));
                let drop = (peak - e) as int;
                assert(0 <= drop <= 2 * FIGURE_BOUND);
                assert(drop * 10000 / (peak as int) <= drop * 10000) by (nonlinear_arith)
                    requires
                        drop >= 0,
                        peak >= 1,
                ;
                assert(drop * 10000 / (peak as int) >= 0) by (nonlinear_arith)
                    requires
                        drop >= 0,
                        peak >= 1,
                ;
            }
            let dd = (peak - e) * 10000 / peak;
            if dd > worst {
                worst = dd;
            }
            i = i + 1;
        }
        BacktestResult {
            total_trades: pairs,
            winning_trades: winning,
            losing_trades: pairs - winning,
            total_pnl,
            max_drawdown_bps: worst,
            trades: copy_trades(&self.trades),
        }
    }
}

fn copy_trades(v: &Vec<Trade>) -> (r: Vec<Trade>)
    ensures
        r@ == v@,
{
    let mut out: Vec<Trade> = Vec::new();
    let mut i: usize = 0;
    while i < v.len()
        invariant
            0 <= i <= v.len(),
            out@ == v@.take(i as int),
        decreases v.len() - i,
    {
        out.push(v[i].duplicate());
        assert(out@ =~= v@.take(i + 1));
        i = i + 1;
    }
    assert(v@.take(i as int) =~= v@);
    out
}

} // verus!
