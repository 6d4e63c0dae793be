use quantumflow::{Order, OrderBook, OrderStatus, OrderType, Side};

fn limit(side: Side, price: u64, quantity: u64) -> Order {
    Order::new("BTCUSD".to_string(), side, OrderType::Limit, price, quantity)
}

#[test]
fn test_orderbook_add_and_match() {
    let mut book = OrderBook::new("BTCUSD".to_string());

    let buy_order = limit(Side::Buy, 50000, 1);
    let sell_order = limit(Side::Sell, 50000, 1);

    book.add_order(buy_order.clone());
    let (matched_order, trades) = book.match_order(sell_order);

    assert_eq!(trades.len(), 1);
    assert_eq!(trades[0].quantity, 1);
    assert!(matched_order.is_fully_filled());
}

#[test]
fn test_orderbook_spread() {
    let mut book = OrderBook::new("BTCUSD".to_string());

    book.add_order(limit(Side::Buy, 49900, 1));
    book.add_order(limit(Side::Sell, 50100, 1));

    assert_eq!(book.get_spread(), Some(200));
}

#[test]
fn spread_after_rest_reports_best_prices() {
    let mut book = OrderBook::new("BTCUSD".to_string());
    book.add_order(limit(Side::Buy, 49900, 1));
    book.add_order(limit(Side::Sell, 50100, 1));
    assert_eq!(book.get_best_bid(), Some(49900));
    assert_eq!(book.get_best_ask(), Some(50100));
    assert_eq!(book.get_spread(), Some(200));
}

#[test]
fn empty_book_has_no_prices() {
    let book = OrderBook::new("BTCUSD".to_string());
    assert_eq!(book.get_best_bid(), None);
    assert_eq!(book.get_best_ask(), None);
    assert_eq!(book.get_spread(), None);
    let snap = book.get_snapshot();
    assert!(snap.bids.is_empty());
    assert!(snap.asks.is_empty());
}

#[test]
fn one_sided_book_has_no_spread() {
    let mut book = OrderBook::new("BTCUSD".to_string());
    book.add_order(limit(Side::Buy, 49900, 1));
    assert_eq!(book.get_spread(), None);
}

#[test]
fn single_crossing_match_empties_book() {
    let mut book = OrderBook::new("BTCUSD".to_string());
    let buy = limit(Side::Buy, 50000, 1);
    let buy_id = buy.id;
    book.add_order(buy);
    let sell = limit(Side::Sell, 50000, 1);
    let sell_id = sell.id;
    let (done, trades) = book.match_order(sell);
    assert_eq!(trades.len(), 1);
    assert_eq!(trades[0].price, 50000);
    assert_eq!(trades[0].quantity, 1);
    assert_eq!(trades[0].buy_order_id, buy_id);
    assert_eq!(trades[0].sell_order_id, sell_id);
    assert_eq!(trades[0].symbol, "BTCUSD");
    assert_eq!(done.filled_quantity, 1);
    assert_eq!(book.get_best_bid(), None);
    assert_eq!(book.get_best_ask(), None);
}

#[test]
fn price_improvement_goes_to_aggressor() {
    let mut book = OrderBook::new("BTCUSD".to_string());
    book.add_order(limit(Side::Sell, 49900, 2));
    let (done, trades) = book.match_order(limit(Side::Buy, 50000, 1));
    assert_eq!(trades.len(), 1);
    assert_eq!(trades[0].price, 49900);
    assert_eq!(trades[0].quantity, 1);
    assert!(done.is_fully_filled());
    let asks = book.get_depth(Side::Sell, 5);
    assert_eq!(asks.len(), 1);
    assert_eq!(asks[0].price, 49900);
    assert_eq!(asks[0].quantity, 1);
}

#[test]
fn fifo_within_level() {
    let mut book = OrderBook::new("BTCUSD".to_string());
    let a = limit(Side::Sell, 50000, 1);
    let b = limit(Side::Sell, 50000, 1);
    let a_id = a.id;
    let b_id = b.id;
    book.add_order(a);
    book.add_order(b);
    let (_, trades) = book.match_order(limit(Side::Buy, 50000, 1));
    assert_eq!(trades.len(), 1);
    assert_eq!(trades[0].sell_order_id, a_id);
    assert!(book.remove_order(a_id, Side::Sell).is_none());
    let left = book.remove_order(b_id, Side::Sell).unwrap();
    assert_eq!(left.filled_quantity, 0);
}

#[test]
fn earlier_order_filled_before_later_is_touched() {
    let mut book = OrderBook::new("BTCUSD".to_string());
    let a = limit(Side::Buy, 50000, 2);
    let b = limit(Side::Buy, 50000, 2);
    let a_id = a.id;
    let b_id = b.id;
    book.add_order(a);
    book.add_order(b);
    let (_, trades) = book.match_order(limit(Side::Sell, 50000, 3));
    assert_eq!(trades.len(), 2);
    assert_eq!(trades[0].buy_order_id, a_id);
    assert_eq!(trades[0].quantity, 2);
    assert_eq!(trades[1].buy_order_id, b_id);
    assert_eq!(trades[1].quantity, 1);
}

#[test]
fn partial_fill_walks_levels_in_price_order() {
    let mut book = OrderBook::new("BTCUSD".to_string());
    book.add_order(limit(Side::Sell, 50000, 1));
    book.add_order(limit(Side::Sell, 49900, 2));
    let (done, trades) = book.match_order(limit(Side::Buy, 50000, 5));
    assert_eq!(trades.len(), 2);
    assert_eq!((trades[0].price, trades[0].quantity), (49900, 2));
    assert_eq!((trades[1].price, trades[1].quantity), (50000, 1));
    assert_eq!(done.filled_quantity, 3);
    assert_eq!(book.get_best_ask(), None);
}

#[test]
fn sell_aggressor_visits_bids_highest_first() {
    let mut book = OrderBook::new("BTCUSD".to_string());
    book.add_order(limit(Side::Buy, 49800, 1));
    book.add_order(limit(Side::Buy, 50000, 1));
    book.add_order(limit(Side::Buy, 49900, 1));
    let (done, trades) = book.match_order(limit(Side::Sell, 49900, 3));
    assert_eq!(trades.len(), 2);
    assert_eq!(trades[0].price, 50000);
    assert_eq!(trades[1].price, 49900);
    assert_eq!(done.filled_quantity, 2);
    assert_eq!(book.get_best_bid(), Some(49800));
}

#[test]
fn non_crossing_order_does_not_trade() {
    let mut book = OrderBook::new("BTCUSD".to_string());
    book.add_order(limit(Side::Sell, 50100, 1));
    let (done, trades) = book.match_order(limit(Side::Buy, 50000, 1));
    assert!(trades.is_empty());
    assert_eq!(done.filled_quantity, 0);
    assert_eq!(book.get_best_ask(), Some(50100));
}

#[test]
fn filled_incoming_short_circuits() {
    let mut book = OrderBook::new("BTCUSD".to_string());
    book.add_order(limit(Side::Sell, 50000, 1));
    let mut incoming = limit(Side::Buy, 50000, 1);
    incoming.filled_quantity = 1;
    let (done, trades) = book.match_order(incoming);
    assert!(trades.is_empty());
    assert_eq!(done.filled_quantity, 1);
    assert_eq!(book.get_best_ask(), Some(50000));
}

#[test]
fn match_conserves_quantity() {
    let mut book = OrderBook::new("BTCUSD".to_string());
    book.add_order(limit(Side::Sell, 100, 3));
    book.add_order(limit(Side::Sell, 101, 4));
    let before: u128 = book.get_depth(Side::Sell, 10).iter().map(|l| l.quantity).sum();
    let (done, trades) = book.match_order(limit(Side::Buy, 101, 5));
    let traded: u64 = trades.iter().map(|t| t.quantity).sum();
    let after: u128 = book.get_depth(Side::Sell, 10).iter().map(|l| l.quantity).sum();
    assert_eq!(traded, 5);
    assert_eq!(done.filled_quantity, traded);
    assert_eq!(before - after, traded as u128);
}

#[test]
fn remove_prunes_empty_level() {
    let mut book = OrderBook::new("BTCUSD".to_string());
    let o = limit(Side::Buy, 49900, 1);
    let id = o.id;
    book.add_order(o);
    book.add_order(limit(Side::Buy, 49800, 1));
    let removed = book.remove_order(id, Side::Buy).unwrap();
    assert_eq!(removed.id, id);
    assert_eq!(book.get_best_bid(), Some(49800));
    assert_eq!(book.get_depth(Side::Buy, 10).len(), 1);
}

#[test]
fn remove_unknown_id_changes_nothing() {
    let mut book = OrderBook::new("BTCUSD".to_string());
    let o = limit(Side::Buy, 49900, 1);
    let id = o.id;
    book.add_order(o);
    assert!(book.remove_order(id, Side::Sell).is_none());
    assert!(book.remove_order(id.wrapping_add(1), Side::Buy).is_none());
    assert_eq!(book.get_best_bid(), Some(49900));
}

#[test]
fn removed_order_is_never_matched() {
    let mut book = OrderBook::new("BTCUSD".to_string());
    let o = limit(Side::Sell, 50000, 1);
    let id = o.id;
    book.add_order(o);
    book.add_order(limit(Side::Sell, 50000, 1));
    assert!(book.remove_order(id, Side::Sell).is_some());
    let (_, trades) = book.match_order(limit(Side::Buy, 50000, 2));
    assert_eq!(trades.len(), 1);
    assert_ne!(trades[0].sell_order_id, id);
}

#[test]
fn snapshot_depth_is_twenty_per_side() {
    let mut book = OrderBook::new("BTCUSD".to_string());
    for i in 0..25u64 {
        book.add_order(limit(Side::Buy, 50000 - i * 10, 1 + i));
        book.add_order(limit(Side::Sell, 50100 + i * 10, 2));
    }
    book.add_order(limit(Side::Sell, 50100, 3));
    let snap = book.get_snapshot();
    assert_eq!(snap.symbol, "BTCUSD");
    assert_eq!(snap.bids.len(), 20);
    assert_eq!(snap.asks.len(), 20);
    for i in 0..20usize {
        assert_eq!(snap.bids[i].price, 50000 - i as u64 * 10);
        assert_eq!(snap.bids[i].quantity, 1 + i as u128);
        assert_eq!(snap.asks[i].price, 50100 + i as u64 * 10);
    }
    assert_eq!(snap.asks[0].quantity, 5);
    assert_eq!(snap.asks[1].quantity, 2);
}

#[test]
fn consecutive_snapshots_agree() {
    let mut book = OrderBook::new("BTCUSD".to_string());
    book.add_order(limit(Side::Buy, 49900, 2));
    book.add_order(limit(Side::Sell, 50100, 3));
    let a = book.get_snapshot();
    let b = book.get_snapshot();
    assert_eq!(a.symbol, b.symbol);
    assert_eq!(a.bids, b.bids);
    assert_eq!(a.asks, b.asks);
}

#[test]
fn depth_respects_requested_levels() {
    let mut book = OrderBook::new("BTCUSD".to_string());
    book.add_order(limit(Side::Buy, 100, 1));
    book.add_order(limit(Side::Buy, 102, 1));
    book.add_order(limit(Side::Buy, 101, 1));
    let d = book.get_depth(Side::Buy, 2);
    assert_eq!(d.len(), 2);
    assert_eq!(d[0].price, 102);
    assert_eq!(d[1].price, 101);
    assert!(book.get_depth(Side::Buy, 0).is_empty());
}

#[test]
fn level_totals_sum_remaining_not_original() {
    let mut book = OrderBook::new("BTCUSD".to_string());
    book.add_order(limit(Side::Sell, 100, 5));
    book.add_order(limit(Side::Sell, 100, 4));
    book.match_order(limit(Side::Buy, 100, 2));
    let d = book.get_depth(Side::Sell, 1);
    assert_eq!(d[0].quantity, 7);
}

#[test]
fn orders_get_distinct_ids() {
    let a = limit(Side::Buy, 1, 1);
    let b = limit(Side::Buy, 1, 1);
    assert_ne!(a.id, b.id);
    assert!(a.timestamp > 0);
    assert_eq!(a.remaining_quantity(), 1);
}

#[test]
fn level_total_of_largest_quantities_is_exact() {
    let mut book = OrderBook::new("BTCUSD".to_string());
    book.add_order(limit(Side::Buy, u64::MAX, u64::MAX));
    book.add_order(limit(Side::Buy, u64::MAX, u64::MAX));
    let d = book.get_depth(Side::Buy, 1);
    assert_eq!(d[0].price, u64::MAX);
    assert_eq!(d[0].quantity, 2 * u64::MAX as u128);
    let (done, trades) = book.match_order(Order::new(
        "BTCUSD".to_string(),
        Side::Sell,
        OrderType::Market,
        0,
        u64::MAX,
    ));
    assert!(done.is_fully_filled());
    assert_eq!(trades.len(), 1);
    assert_eq!(book.get_depth(Side::Buy, 1)[0].quantity, u64::MAX as u128);
}

#[test]
fn partly_filled_resting_order_is_marked() {
    let mut book = OrderBook::new("BTCUSD".to_string());
    let mut resting = limit(Side::Sell, 50000, 2);
    resting.status = OrderStatus::Open;
    let id = resting.id;
    book.add_order(resting);
    let (_, trades) = book.match_order(limit(Side::Buy, 50000, 1));
    assert_eq!(trades.len(), 1);
    let left = book.remove_order(id, Side::Sell).unwrap();
    assert_eq!(left.filled_quantity, 1);
    assert_eq!(left.status, OrderStatus::PartiallyFilled);
}
