use vstd::prelude::*;

verus! {

/// What `str::to_lowercase` makes of a string.
pub uninterp spec fn lower_of(s: Seq<char>) -> Seq<char>;

/// Relies on str::to_lowercase: the result depends on the characters alone.
#[verifier::external_body]
fn lowercase(s: &str) -> (r: String)
    ensures
        r@ == lower_of(s@),
{
    s.to_lowercase()
}

/// Where the exchange's market-data streams are reached. The connection
/// itself is made by the application around this library.
pub struct BinanceConnector {
    ws_url: String,
}

impl BinanceConnector {
    pub closed spec fn spec_ws_url(self) -> Seq<char> {
        self.ws_url@
    }

    /// A connector for the exchange's public stream endpoint.
    pub fn new() -> (r: BinanceConnector)
        ensures
            r.spec_ws_url() == "wss://stream.binance.com:9443/ws"@,
    {
        BinanceConnector { ws_url: String::from_str("wss://stream.binance.com:9443/ws") }
    }

    /// The endpoint that stream names are appended to.
    pub fn ws_url(&self) -> (r: &str)
        ensures
            r@ == self.spec_ws_url(),
    {
        self.ws_url.as_str()
    }

    /// The address of the 100 ms depth-update stream of `symbol`.
    pub fn orderbook_stream_url(&self, symbol: &str) -> (r: String)
        ensures
            r@ == self.spec_ws_url() + lower_of(symbol@) + "@depth@100ms"@,
    {
        let mut url = self.ws_url.clone();
        let lower = lowercase(symbol);
        url.append(lower.as_str());
        url.append("@depth@100ms");
        url
    }

    /// The address of the 24-hour ticker stream of `symbol`.
    pub fn ticker_stream_url(&self, symbol: &str) -> (r: String)
        ensures
            r@ == self.spec_ws_url() + lower_of(symbol@) + "@ticker"@,
    {
        let mut url = self.ws_url.clone();
        let lower = lowercase(symbol);
        url.append(lower.as_str());
        url.append("@ticker");
        url
    }
}

impl Default for BinanceConnector {
    fn default() -> (r: BinanceConnector)
        ensures
            r.spec_ws_url() == "wss://stream.binance.com:9443/ws"@,
    {
        BinanceConnector::new()
    }
}

} // verus!
