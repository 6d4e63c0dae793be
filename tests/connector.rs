use quantumflow::BinanceConnector;

#[test]
fn connector_endpoint() {
    let c = BinanceConnector::new();
    assert_eq!(c.ws_url(), "wss://stream.binance.com:9443/ws");
    let d = BinanceConnector::default();
    assert_eq!(d.ws_url(), c.ws_url());
}

#[test]
fn stream_urls_lowercase_the_symbol() {
    let c = BinanceConnector::new();
    assert_eq!(c.orderbook_stream_url("BTCUSDT"), "wss://stream.binance.com:9443/wsbtcusdt@depth@100ms");
    assert_eq!(c.ticker_stream_url("EthUsdt"), "wss://stream.binance.com:9443/wsethusdt@ticker");
}

#[test]
fn side_names() {
    assert_eq!(quantumflow::Side::Buy.to_string(), "BUY");
    assert_eq!(quantumflow::Side::Sell.to_string(), "SELL");
}
