//! The configuration: the query prefix, the symbols to fetch, the
//! staleness threshold, and an optional cap on displayed entries. Loaded
//! once; when the configuration source is absent or malformed the caller
//! falls back to `Config::default()`.

use vstd::prelude::*;

verus! {

pub struct Config {
    pub prefix: String,
    pub symbols: Vec<String>,
    pub max_cache_age: u64,
    pub max_entries: Option<usize>,
}

impl Default for Config {
    /// The built-in defaults: the `$` prefix, seven example symbols, a
    /// fifteen-minute staleness threshold, and no entry cap.
    fn default() -> (c: Self)
        ensures
            c.prefix@ == "$"@,
            c.symbols@.len() == 7,
            c.symbols@[0]@ == "BTCUSDT"@,
            c.symbols@[1]@ == "ETHUSDT"@,
            c.symbols@[2]@ == "BNBUSDT"@,
            c.symbols@[3]@ == "XRPUSDT"@,
            c.symbols@[4]@ == "ADAUSDT"@,
            c.symbols@[5]@ == "XMRUSDT"@,
            c.symbols@[6]@ == "SOLUSDT"@,
            c.max_cache_age == 900,
            c.max_entries is None,
    {
        let mut symbols: Vec<String> = Vec::new();
        symbols.push(String::from_str("BTCUSDT"));
        symbols.push(String::from_str("ETHUSDT"));
        symbols.push(String::from_str("BNBUSDT"));
        symbols.push(String::from_str("XRPUSDT"));
        symbols.push(String::from_str("ADAUSDT"));
        symbols.push(String::from_str("XMRUSDT"));
        symbols.push(String::from_str("SOLUSDT"));
        Config {
            prefix: String::from_str("$"),
            symbols,
            max_cache_age: 900,
            max_entries: None,
        }
    }
}

} // verus!
