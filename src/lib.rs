//! A limit-order matching engine: per-symbol order books with price-time
//! priority, a multi-symbol engine that publishes trades, and a risk gate.
//!
//! Prices and quantities are exact integers in minor units (ticks and lots);
//! ids are 128-bit values and timestamps are milliseconds since the Unix
//! epoch, UTC.
pub mod backtest;
pub mod binance;
pub mod matching;
pub mod orderbook;
pub mod risk;
pub mod types;

pub use backtest::{BacktestEngine, BacktestResult, OHLCV};
pub use binance::BinanceConnector;
pub use matching::{EngineError, MatchingEngine};
pub use orderbook::{OrderBook, PriceLevel};
pub use risk::{Position, Rejection, RiskLimits, RiskManager, PRICE_SCALE};
pub use types::{Order, OrderBookLevel, OrderBookSnapshot, OrderStatus, OrderType, Side, Trade};
