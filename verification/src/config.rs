//! Service configuration and its defaults.

use vstd::prelude::*;

verus! {

/// Settings of the market-data service. Loading them from a file is the
/// binary's concern; the library holds the values, their defaults and
/// their validity rule.
#[derive(Clone, Debug)]
pub struct Config {
    pub symbols: Vec<String>,
    pub exchange_ws_url: String,
    pub redis_url: String,
    pub order_book_depth: usize,
    pub health_port: u16,
    pub shm_name: String,
    pub reconnect_delay_ms: u64,
    pub max_reconnect_delay_ms: u64,
}

impl Config {
    /// A usable configuration names at least one symbol and keeps the
    /// backoff window ordered, starting at a positive delay.
    pub open spec fn wf(&self) -> bool {
        &&& self.symbols@.len() >= 1
        &&& 1 <= self.reconnect_delay_ms <= self.max_reconnect_delay_ms
        &&& self.max_reconnect_delay_ms <= 0x7fff_ffff_ffff_ffff
    }

    /// Whether the configuration is usable.
    pub fn validate(&self) -> (r: bool)
        ensures
            r == self.wf(),
    {
        self.symbols.len() >= 1 && self.reconnect_delay_ms >= 1 && self.reconnect_delay_ms
            <= self.max_reconnect_delay_ms && self.max_reconnect_delay_ms
            <= 0x7fff_ffff_ffff_ffff
    }
}

impl Default for Config {
    /// The stock configuration: the two major perpetual symbols, a
    /// twenty-level snapshot cap, the health endpoint on 9090, and a
    /// backoff window from one second to one minute.
    fn default() -> (r: Config)
        ensures
            r.wf(),
            r.symbols@.len() == 2,
            r.symbols@[0]@ == "BTCUSDT"@,
            r.symbols@[1]@ == "ETHUSDT"@,
            r.exchange_ws_url@ == "wss://fstream.binance.com/stream"@,
            r.redis_url@ == "redis://127.0.0.1:6379"@,
            r.order_book_depth == 20,
            r.health_port == 9090,
            r.shm_name@ == "market_data_shm"@,
            r.reconnect_delay_ms == 1000,
            r.max_reconnect_delay_ms == 60000,
    {
        let mut symbols: Vec<String> = Vec::new();
        symbols.push(crate::text::owned_str("BTCUSDT"));
        symbols.push(crate::text::owned_str("ETHUSDT"));
        Config {
            symbols,
            exchange_ws_url: crate::text::owned_str("wss://fstream.binance.com/stream"),
            redis_url: crate::text::owned_str("redis://127.0.0.1:6379"),
            order_book_depth: 20,
            health_port: 9090,
            shm_name: crate::text::owned_str("market_data_shm"),
            reconnect_delay_ms: 1000,
            max_reconnect_delay_ms: 60000,
        }
    }
}

} // verus!
