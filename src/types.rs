use vstd::prelude::*;

verus! {

/// The side of an order.
#[derive(Debug, Clone, Copy, PartialEq, Eq, Hash, Structural)]
pub enum Side {
    Buy,
    Sell,
}

impl Side {
    /// The other side.
    pub open spec fn spec_opposite(self) -> Side {
        match self {
            Side::Buy => Side::Sell,
            Side::Sell => Side::Buy,
        }
    }

    /// The side's name in upper case.
    pub fn to_string(&self) -> (r: String)
        ensures
            r@ == (if *self == Side::Buy { "BUY"@ } else { "SELL"@ }),
    {
        match self {
            Side::Buy => String::from_str("BUY"),
            Side::Sell => String::from_str("SELL"),
        }
    }
}

/// The kind of an order. Only `Limit` has matching behaviour of its own; the
/// others are carried as tags.
#[derive(Debug, Clone, Copy, PartialEq, Eq, Structural)]
pub enum OrderType {
    Limit,
    Market,
    StopLimit,
    StopMarket,
}

/// The life-cycle state of an order.
#[derive(Debug, Clone, Copy, PartialEq, Eq, Structural)]
pub enum OrderStatus {
    Pending,
    Open,
    PartiallyFilled,
    Filled,
    Cancelled,
    Rejected,
}

/// An order. `price`, `quantity` and `filled_quantity` are in minor units.
#[derive(Debug, Clone)]
pub struct Order {
    pub id: u128,
    pub symbol: String,
    pub side: Side,
    pub order_type: OrderType,
    pub price: u64,
    pub quantity: u64,
    pub filled_quantity: u64,
    pub status: OrderStatus,
    /// Milliseconds since the Unix epoch, UTC.
    pub timestamp: i64,
    pub client_id: Option<String>,
}

/// Relies on uuid::Uuid::new_v4: a fresh random 128-bit identifier. Nothing is
/// promised of its value.
#[verifier::external_body]
pub(crate) fn fresh_id() -> (r: u128) {
    uuid::Uuid::new_v4().as_u128()
}

/// Relies on chrono::Utc::now: the current wall-clock time in milliseconds
/// since the Unix epoch. Nothing is promised of its value.
#[verifier::external_body]
pub(crate) fn now_millis() -> (r: i64) {
    chrono::Utc::now().timestamp_millis()
}

impl Order {
    /// `filled_quantity <= quantity`.
    pub open spec fn valid(self) -> bool {
        self.filled_quantity <= self.quantity
    }

    pub open spec fn remaining(self) -> int {
        self.quantity - self.filled_quantity
    }

    /// A new pending order with nothing filled, a fresh id and the current time.
    pub fn new(symbol: String, side: Side, order_type: OrderType, price: u64, quantity: u64) -> (r: Order)
        ensures
            r.symbol == symbol,
            r.side == side,
            r.order_type == order_type,
            r.price == price,
            r.quantity == quantity,
            r.filled_quantity == 0,
            r.status == OrderStatus::Pending,
            r.client_id.is_none(),
    {
        Order {
            id: fresh_id(),
            symbol,
            side,
            order_type,
            price,
            quantity,
            filled_quantity: 0,
            status: OrderStatus::Pending,
            timestamp: now_millis(),
            client_id: None,
        }
    }

    /// `quantity - filled_quantity`.
    pub fn remaining_quantity(&self) -> (r: u64)
        requires
            self.valid(),
        ensures
            r == self.remaining(),
    {
        self.quantity - self.filled_quantity
    }

    pub fn is_fully_filled(&self) -> (r: bool)
        ensures
            r == (self.filled_quantity >= self.quantity),
    {
        self.filled_quantity >= self.quantity
    }

    /// A field-by-field copy.
    pub fn duplicate(&self) -> (r: Order)
        ensures
            r == *self,
    {
        let client_id = match &self.client_id {
            Some(c) => Some(c.clone()),
            None => None,
        };
        Order {
            id: self.id,
            symbol: self.symbol.clone(),
            side: self.side,
            order_type: self.order_type,
            price: self.price,
            quantity: self.quantity,
            filled_quantity: self.filled_quantity,
            status: self.status,
            timestamp: self.timestamp,
            client_id,
        }
    }
}

/// An execution between a buy order and a sell order.
#[derive(Debug, Clone)]
pub struct Trade {
    pub id: u128,
    pub symbol: String,
    pub price: u64,
    pub quantity: u64,
    pub buy_order_id: u128,
    pub sell_order_id: u128,
    /// Milliseconds since the Unix epoch, UTC.
    pub timestamp: i64,
}

impl Trade {
    /// A trade with a fresh id, stamped with the current time.
    pub fn new(symbol: String, price: u64, quantity: u64, buy_order_id: u128, sell_order_id: u128) -> (r: Trade)
        ensures
            r.symbol == symbol,
            r.price == price,
            r.quantity == quantity,
            r.buy_order_id == buy_order_id,
            r.sell_order_id == sell_order_id,
    {
        Trade {
            id: fresh_id(),
            symbol,
            price,
            quantity,
            buy_order_id,
            sell_order_id,
            timestamp: now_millis(),
        }
    }

    /// A field-by-field copy.
    pub fn duplicate(&self) -> (r: Trade)
        ensures
            r == *self,
    {
        Trade {
            id: self.id,
            symbol: self.symbol.clone(),
            price: self.price,
            quantity: self.quantity,
            buy_order_id: self.buy_order_id,
            sell_order_id: self.sell_order_id,
            timestamp: self.timestamp,
        }
    }
}

/// One price level of a book: its price and the summed remaining quantity.
#[derive(Debug, Clone, Copy, PartialEq, Eq, Structural)]
pub struct OrderBookLevel {
    pub price: u64,
    pub quantity: u128,
}

/// A point-in-time view of the top of one book: bids best (highest) first,
/// asks best (lowest) first.
#[derive(Debug, Clone)]
pub struct OrderBookSnapshot {
    pub symbol: String,
    pub bids: Vec<OrderBookLevel>,
    pub asks: Vec<OrderBookLevel>,
    /// Milliseconds since the Unix epoch, UTC.
    pub timestamp: i64,
}

} // verus!
