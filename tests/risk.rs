use quantumflow::{Order, OrderType, Position, Rejection, RiskLimits, RiskManager, Side, PRICE_SCALE};

fn limit(side: Side, price: u64, quantity: u64) -> Order {
    Order::new("BTCUSD".to_string(), side, OrderType::Limit, price, quantity)
}

#[test]
fn test_position_update() {
    let mut position = Position::new("BTCUSD".to_string());

    position.update(Side::Buy, 50000, 1);
    assert_eq!(position.quantity, 1);
    assert_eq!(position.average_price, 50000 * PRICE_SCALE);

    position.update(Side::Sell, 51000, 1);
    assert_eq!(position.quantity, 0);
    assert_eq!(position.realized_pnl, 1000);
}

#[test]
fn manager_test_risk_manager_limits() {
    let limits = RiskLimits { max_order_size: 5, ..Default::default() };

    let manager = RiskManager::new(limits);

    let order = limit(Side::Buy, 50000, 10);

    let result = manager.check_order(&order);
    assert!(result.is_err());
}

#[test]
fn integration_test_test_risk_manager_limits() {
    let limits = RiskLimits { max_order_size: 5, max_position_size: 10, ..Default::default() };

    let risk_manager = RiskManager::new(limits);

    let large_order = limit(Side::Buy, 50000, 10);
    assert!(risk_manager.check_order(&large_order).is_err());

    let valid_order = limit(Side::Buy, 50000, 3);
    assert!(risk_manager.check_order(&valid_order).is_ok());
}

#[test]
fn default_limits() {
    let l = RiskLimits::default();
    assert_eq!(l.max_position_size, 100);
    assert_eq!(l.max_order_size, 10);
    assert_eq!(l.max_daily_loss, 10000);
    assert_eq!(l.max_leverage, 5);
}

#[test]
fn order_size_rejection() {
    let rm = RiskManager::new(RiskLimits { max_order_size: 5, ..Default::default() });
    assert_eq!(rm.check_order(&limit(Side::Buy, 50000, 10)), Err(Rejection::OrderSize));
    assert_eq!(rm.check_order(&limit(Side::Buy, 50000, 5)), Ok(()));
}

#[test]
fn position_size_rejection_uses_projection() {
    let mut rm = RiskManager::new(RiskLimits { max_position_size: 10, ..Default::default() });
    assert!(rm.update_position("BTCUSD", Side::Buy, 100, 8));
    assert_eq!(rm.check_order(&limit(Side::Buy, 100, 3)), Err(Rejection::PositionSize));
    assert_eq!(rm.check_order(&limit(Side::Buy, 100, 2)), Ok(()));
    // selling 10 from 8 projects |8 - 10| = 2
    assert_eq!(rm.check_order(&limit(Side::Sell, 100, 10)), Ok(()));
}

#[test]
fn daily_loss_rejection_and_breaker() {
    let mut rm = RiskManager::new(RiskLimits { max_daily_loss: 100, ..Default::default() });
    assert!(rm.update_position("BTCUSD", Side::Buy, 1000, 1));
    assert!(!rm.check_circuit_breaker());
    assert!(rm.update_position("BTCUSD", Side::Sell, 899, 1));
    assert_eq!(rm.get_daily_pnl(), -101);
    assert!(rm.check_circuit_breaker());
    assert_eq!(rm.check_order(&limit(Side::Buy, 1000, 1)), Err(Rejection::DailyLoss));
    rm.reset_daily_pnl();
    assert_eq!(rm.get_daily_pnl(), 0);
    assert!(!rm.check_circuit_breaker());
    assert_eq!(rm.get_position("BTCUSD").realized_pnl, -101);
}

#[test]
fn loss_exactly_at_limit_is_not_a_breach() {
    let mut rm = RiskManager::new(RiskLimits { max_daily_loss: 100, ..Default::default() });
    rm.update_position("BTCUSD", Side::Buy, 1000, 1);
    rm.update_position("BTCUSD", Side::Sell, 900, 1);
    assert_eq!(rm.get_daily_pnl(), -100);
    assert!(!rm.check_circuit_breaker());
}

#[test]
fn buy_averages_cost() {
    let mut p = Position::new("X".to_string());
    assert!(p.update(Side::Buy, 100, 1));
    assert!(p.update(Side::Buy, 200, 3));
    assert_eq!(p.quantity, 4);
    assert_eq!(p.average_price, 175 * PRICE_SCALE);
    assert_eq!(p.realized_pnl, 0);
}

#[test]
fn sell_beyond_position_collapses_to_flat() {
    let mut p = Position::new("X".to_string());
    p.update(Side::Buy, 100, 2);
    assert!(p.update(Side::Sell, 90, 5));
    assert_eq!(p.quantity, 0);
    assert_eq!(p.average_price, 0);
    assert_eq!(p.realized_pnl, -50);
}

#[test]
fn sell_when_flat_realizes_nothing() {
    let mut p = Position::new("X".to_string());
    assert!(p.update(Side::Sell, 90, 5));
    assert_eq!(p.quantity, 0);
    assert_eq!(p.realized_pnl, 0);
}

#[test]
fn overflowing_update_is_refused() {
    let mut p = Position::new("X".to_string());
    assert!(p.update(Side::Buy, 1, u64::MAX));
    assert!(!p.update(Side::Buy, 1, 1));
    assert_eq!(p.quantity, u64::MAX);
}

#[test]
fn unrealized_pnl_values() {
    let mut p = Position::new("X".to_string());
    assert_eq!(p.unrealized_pnl(500), Some(0));
    p.update(Side::Buy, 100, 3);
    assert_eq!(p.unrealized_pnl(110), Some(30));
    assert_eq!(p.unrealized_pnl(90), Some(-30));
}

#[test]
fn daily_pnl_tracks_realized_changes() {
    let mut rm = RiskManager::new(RiskLimits::default());
    rm.update_position("A", Side::Buy, 100, 2);
    rm.update_position("B", Side::Buy, 50, 1);
    rm.update_position("A", Side::Sell, 110, 1);
    rm.update_position("B", Side::Sell, 40, 1);
    let total: i128 = rm.get_all_positions().iter().map(|p| p.realized_pnl).sum();
    assert_eq!(rm.get_daily_pnl(), total);
    assert_eq!(rm.get_daily_pnl(), 0);
    assert_eq!(rm.get_position("A").realized_pnl, 10);
    assert_eq!(rm.get_position("B").realized_pnl, -10);
}

#[test]
fn positions_and_exposure() {
    let mut rm = RiskManager::new(RiskLimits::default());
    assert_eq!(rm.get_total_exposure(), Some(0));
    rm.update_position("A", Side::Buy, 100, 2);
    rm.update_position("B", Side::Buy, 50, 3);
    assert_eq!(rm.get_total_exposure(), Some(350));
    let mut all: Vec<String> = rm.get_all_positions().into_iter().map(|p| p.symbol).collect();
    all.sort();
    assert_eq!(all, vec!["A".to_string(), "B".to_string()]);
    let unknown = rm.get_position("C");
    assert_eq!(unknown.symbol, "C");
    assert_eq!(unknown.quantity, 0);
    assert_eq!(rm.get_all_positions().len(), 2);
}

#[test]
fn average_keeps_its_fraction() {
    let mut p = Position::new("X".to_string());
    assert!(p.update(Side::Buy, 1, 1));
    assert!(p.update(Side::Buy, 2, 1));
    assert_eq!(p.average_price, 3 * PRICE_SCALE / 2);
    assert!(p.update(Side::Sell, 2, 2));
    assert_eq!(p.realized_pnl, 1);
    assert_eq!(p.quantity, 0);
}

#[test]
fn loss_against_fractional_average() {
    let mut p = Position::new("X".to_string());
    p.update(Side::Buy, 2, 1);
    p.update(Side::Buy, 3, 1);
    assert_eq!(p.unrealized_pnl(1), Some(-3));
    assert!(p.update(Side::Sell, 1, 2));
    assert_eq!(p.realized_pnl, -3);
}
