use quantumflow::{EngineError, MatchingEngine, Order, OrderStatus, OrderType, RiskLimits, RiskManager, Side};
use tokio::sync::mpsc;

fn limit(side: Side, price: u64, quantity: u64) -> Order {
    Order::new("BTCUSD".to_string(), side, OrderType::Limit, price, quantity)
}

#[test]
fn test_matching_engine_submit_and_match() {
    let (tx, mut rx) = mpsc::unbounded_channel();
    let mut engine = MatchingEngine::new(tx);

    let result1 = engine.submit_order(limit(Side::Buy, 50000, 1));
    assert!(result1.is_ok());

    let result2 = engine.submit_order(limit(Side::Sell, 50000, 1));
    assert!(result2.is_ok());

    let trade = rx.try_recv().ok();
    assert!(trade.is_some());
}

#[test]
fn test_matching_engine_cancel() {
    let (tx, _rx) = mpsc::unbounded_channel();
    let mut engine = MatchingEngine::new(tx);

    let order = limit(Side::Buy, 50000, 1);
    let order_id = order.id;
    let result = engine.submit_order(order);
    assert!(result.is_ok());

    let cancel_result = engine.cancel_order(order_id, "BTCUSD");
    assert!(cancel_result.is_ok());
}

#[test]
fn test_full_trading_flow() {
    let (tx, mut rx) = mpsc::unbounded_channel();
    let mut engine = MatchingEngine::new(tx);
    let risk_manager = RiskManager::new(RiskLimits::default());

    let buy_order = limit(Side::Buy, 50000, 1);
    assert!(risk_manager.check_order(&buy_order).is_ok());

    let result = engine.submit_order(buy_order);
    assert!(result.is_ok());

    let result = engine.submit_order(limit(Side::Sell, 50000, 1));
    assert!(result.is_ok());

    let trade = rx.try_recv().ok();
    assert!(trade.is_some());

    let trade = trade.unwrap();
    assert_eq!(trade.symbol, "BTCUSD");
    assert_eq!(trade.price, 50000);
    assert_eq!(trade.quantity, 1);
}

#[test]
fn test_orderbook_snapshot() {
    let (tx, _rx) = mpsc::unbounded_channel();
    let mut engine = MatchingEngine::new(tx);

    for i in 0..10u64 {
        engine.submit_order(limit(Side::Buy, 50000 - i * 100, 1)).unwrap();
        engine.submit_order(limit(Side::Sell, 51000 + i * 100, 1)).unwrap();
    }

    let snapshot = engine.get_orderbook_snapshot("BTCUSD");
    assert!(snapshot.is_some());

    let snapshot = snapshot.unwrap();
    assert_eq!(snapshot.symbol, "BTCUSD");
    assert!(!snapshot.bids.is_empty());
    assert!(!snapshot.asks.is_empty());
}

#[test]
fn submit_crossing_pair_fills_both_and_empties_book() {
    let (tx, mut rx) = mpsc::unbounded_channel();
    let mut engine = MatchingEngine::new(tx);
    let first = engine.submit_order(limit(Side::Buy, 50000, 1)).unwrap();
    assert_eq!(first.status, OrderStatus::Open);
    let second = engine.submit_order(limit(Side::Sell, 50000, 1)).unwrap();
    assert_eq!(second.status, OrderStatus::Filled);
    let trade = rx.try_recv().unwrap();
    assert_eq!(trade.buy_order_id, first.id);
    assert_eq!(trade.sell_order_id, second.id);
    assert!(rx.try_recv().is_err());
    let snap = engine.get_orderbook_snapshot("BTCUSD").unwrap();
    assert!(snap.bids.is_empty());
    assert!(snap.asks.is_empty());
    // the resting buy was filled: cancelling it finds nothing
    assert_eq!(engine.cancel_order(first.id, "BTCUSD"), Err(EngineError::OrderNotFound));
}

#[test]
fn partial_fill_rests_residual_on_bid_side() {
    let (tx, mut rx) = mpsc::unbounded_channel();
    let mut engine = MatchingEngine::new(tx);
    engine.submit_order(limit(Side::Sell, 49900, 2)).unwrap();
    engine.submit_order(limit(Side::Sell, 50000, 1)).unwrap();
    let buyer = engine.submit_order(limit(Side::Buy, 50000, 5)).unwrap();
    assert_eq!(buyer.status, OrderStatus::PartiallyFilled);
    assert_eq!(buyer.filled_quantity, 3);
    let t1 = rx.try_recv().unwrap();
    let t2 = rx.try_recv().unwrap();
    assert_eq!((t1.price, t1.quantity), (49900, 2));
    assert_eq!((t2.price, t2.quantity), (50000, 1));
    let snap = engine.get_orderbook_snapshot("BTCUSD").unwrap();
    assert!(snap.asks.is_empty());
    assert_eq!(snap.bids.len(), 1);
    assert_eq!(snap.bids[0].price, 50000);
    assert_eq!(snap.bids[0].quantity, 2);
}

#[test]
fn status_law_holds_for_each_outcome() {
    let (tx, _rx) = mpsc::unbounded_channel();
    let mut engine = MatchingEngine::new(tx);
    let open = engine.submit_order(limit(Side::Sell, 50000, 2)).unwrap();
    assert_eq!(open.status, OrderStatus::Open);
    let partial = engine.submit_order(limit(Side::Buy, 50000, 3)).unwrap();
    assert_eq!(partial.status, OrderStatus::PartiallyFilled);
    assert!(0 < partial.filled_quantity && partial.filled_quantity < partial.quantity);
    let filled = engine.submit_order(limit(Side::Sell, 50000, 1)).unwrap();
    assert_eq!(filled.status, OrderStatus::Filled);
    assert_eq!(filled.filled_quantity, filled.quantity);
}

#[test]
fn book_never_crossed_after_submits() {
    let (tx, _rx) = mpsc::unbounded_channel();
    let mut engine = MatchingEngine::new(tx);
    let prices = [50000u64, 49900, 50100, 50050, 49950, 50000, 50200, 49800];
    for (i, p) in prices.iter().enumerate() {
        let side = if i % 2 == 0 { Side::Buy } else { Side::Sell };
        engine.submit_order(limit(side, *p, 1 + (i as u64 % 3))).unwrap();
        let snap = engine.get_orderbook_snapshot("BTCUSD").unwrap();
        if let (Some(b), Some(a)) = (snap.bids.first(), snap.asks.first()) {
            assert!(b.price < a.price);
        }
    }
}

#[test]
fn execute_returns_trades_in_order() {
    let (tx, _rx) = mpsc::unbounded_channel();
    let mut engine = MatchingEngine::new(tx);
    engine.execute_order(limit(Side::Buy, 100, 1));
    engine.execute_order(limit(Side::Buy, 101, 1));
    let (done, trades) = engine.execute_order(limit(Side::Sell, 100, 2));
    assert_eq!(done.status, OrderStatus::Filled);
    assert_eq!(trades.len(), 2);
    assert_eq!(trades[0].price, 101);
    assert_eq!(trades[1].price, 100);
}

#[test]
fn cancel_unknown_symbol_and_unknown_id() {
    let (tx, _rx) = mpsc::unbounded_channel();
    let mut engine = MatchingEngine::new(tx);
    assert_eq!(engine.cancel_order(7, "ETHUSD"), Err(EngineError::UnknownSymbol));
    let o = engine.submit_order(limit(Side::Sell, 50000, 1)).unwrap();
    assert_eq!(engine.cancel_order(o.id.wrapping_add(1), "BTCUSD"), Err(EngineError::OrderNotFound));
    assert_eq!(engine.cancel_order(o.id, "BTCUSD"), Ok(()));
    assert_eq!(engine.cancel_order(o.id, "BTCUSD"), Err(EngineError::OrderNotFound));
}

#[test]
fn cancelled_order_is_not_matched() {
    let (tx, mut rx) = mpsc::unbounded_channel();
    let mut engine = MatchingEngine::new(tx);
    let resting = engine.submit_order(limit(Side::Sell, 50000, 1)).unwrap();
    engine.cancel_order(resting.id, "BTCUSD").unwrap();
    let buyer = engine.submit_order(limit(Side::Buy, 50000, 1)).unwrap();
    assert_eq!(buyer.status, OrderStatus::Open);
    assert!(rx.try_recv().is_err());
}

#[test]
fn symbols_and_unknown_snapshot() {
    let (tx, _rx) = mpsc::unbounded_channel();
    let mut engine = MatchingEngine::new(tx);
    assert!(engine.get_all_symbols().is_empty());
    assert!(engine.get_orderbook_snapshot("BTCUSD").is_none());
    engine.submit_order(limit(Side::Buy, 1, 1)).unwrap();
    engine
        .submit_order(Order::new("ETHUSD".to_string(), Side::Buy, OrderType::Limit, 1, 1))
        .unwrap();
    let mut syms = engine.get_all_symbols();
    syms.sort();
    assert_eq!(syms, vec!["BTCUSD".to_string(), "ETHUSD".to_string()]);
    let book = engine.get_or_create_orderbook("XRPUSD");
    assert_eq!(book.get_best_bid(), None);
    assert_eq!(engine.get_all_symbols().len(), 3);
    let btc = engine.get_or_create_orderbook("BTCUSD");
    assert_eq!(btc.get_best_bid(), Some(1));
}

#[test]
fn trades_published_even_without_receiver() {
    let (tx, rx) = mpsc::unbounded_channel();
    drop(rx);
    let mut engine = MatchingEngine::new(tx);
    engine.submit_order(limit(Side::Buy, 10, 1)).unwrap();
    let done = engine.submit_order(limit(Side::Sell, 10, 1)).unwrap();
    assert_eq!(done.status, OrderStatus::Filled);
    let snap = engine.get_orderbook_snapshot("BTCUSD").unwrap();
    assert!(snap.bids.is_empty());
}

fn market(side: Side, quantity: u64) -> Order {
    Order::new("BTCUSD".to_string(), side, OrderType::Market, 0, quantity)
}

#[test]
fn market_buy_sweeps_every_price_and_cancels_rest() {
    let (tx, mut rx) = mpsc::unbounded_channel();
    let mut engine = MatchingEngine::new(tx);
    engine.submit_order(limit(Side::Sell, 50000, 1)).unwrap();
    engine.submit_order(limit(Side::Sell, 90000, 1)).unwrap();
    let done = engine.submit_order(market(Side::Buy, 3)).unwrap();
    assert_eq!(done.filled_quantity, 2);
    assert_eq!(done.status, OrderStatus::Cancelled);
    assert_eq!(rx.try_recv().unwrap().price, 50000);
    assert_eq!(rx.try_recv().unwrap().price, 90000);
    let snap = engine.get_orderbook_snapshot("BTCUSD").unwrap();
    assert!(snap.bids.is_empty());
    assert!(snap.asks.is_empty());
}

#[test]
fn market_sell_on_empty_book_is_cancelled() {
    let (tx, _rx) = mpsc::unbounded_channel();
    let mut engine = MatchingEngine::new(tx);
    let done = engine.submit_order(market(Side::Sell, 1)).unwrap();
    assert_eq!(done.status, OrderStatus::Cancelled);
    assert_eq!(done.filled_quantity, 0);
    assert!(engine.get_orderbook_snapshot("BTCUSD").unwrap().asks.is_empty());
}

#[test]
fn market_sell_fills_at_resting_prices() {
    let (tx, _rx) = mpsc::unbounded_channel();
    let mut engine = MatchingEngine::new(tx);
    engine.submit_order(limit(Side::Buy, 10, 2)).unwrap();
    engine.submit_order(limit(Side::Buy, 1, 2)).unwrap();
    let (done, trades) = engine.execute_order(market(Side::Sell, 3));
    assert_eq!(done.status, OrderStatus::Filled);
    assert_eq!(trades.len(), 2);
    assert_eq!((trades[0].price, trades[0].quantity), (10, 2));
    assert_eq!((trades[1].price, trades[1].quantity), (1, 1));
}
