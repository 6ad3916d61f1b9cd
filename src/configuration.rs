use vstd::prelude::*;

verus! {

/// A URL of the `url` crate, carried through the configuration unread.
#[verifier::external_type_specification]
#[verifier::external_body]
pub struct ExUrl(url::Url);

/// Number of levels per side of the depth stream of the first exchange.
#[derive(Debug, Clone, Copy, PartialEq, Eq, Structural)]
pub enum BinanceDepth {
    D5,
    D10,
    D20,
}

impl BinanceDepth {
    /// The number of levels this setting stands for.
    pub fn levels(self) -> (r: u8)
        ensures
            r == match self {
                BinanceDepth::D5 => 5u8,
                BinanceDepth::D10 => 10u8,
                BinanceDepth::D20 => 20u8,
            },
    {
        match self {
            BinanceDepth::D5 => 5,
            BinanceDepth::D10 => 10,
            BinanceDepth::D20 => 20,
        }
    }
}

/// Update cadence of the depth stream of the first exchange.
#[derive(Debug, Clone, Copy, PartialEq, Eq, Structural)]
pub enum BinanceInterval {
    I100,
    I1000,
}

impl BinanceInterval {
    /// The cadence in milliseconds.
    pub fn millis(self) -> (r: u16)
        ensures
            r == match self {
                BinanceInterval::I100 => 100u16,
                BinanceInterval::I1000 => 1000u16,
            },
    {
        match self {
            BinanceInterval::I100 => 100,
            BinanceInterval::I1000 => 1000,
        }
    }
}

/// Settings of the producer of the first exchange.
#[derive(Debug)]
pub struct BinanceConfig {
    pub url: url::Url,
    pub depth: BinanceDepth,
    pub interval: BinanceInterval,
    /// Whether the producer sorts each snapshot before forwarding it.
    pub sort: bool,
}

/// Settings of the producer of the second exchange.
#[derive(Debug)]
pub struct BitstampConfig {
    pub url: url::Url,
    pub depth: usize,
    /// Whether the producer sorts each snapshot before forwarding it.
    pub sort: bool,
}

/// Settings of the RPC surface.
#[derive(Debug, Clone, Copy, PartialEq, Eq, Structural)]
pub struct Server {
    pub port: u16,
}

/// Retry policy of the supervised producers.
#[derive(Debug, Clone, Copy, PartialEq, Eq, Structural)]
pub struct BackoffConfig {
    /// How many times a failed task is started again.
    pub retries: u32,
    /// Shortest delay before a retry, in milliseconds.
    pub min: u64,
    /// Longest delay before a retry, in milliseconds.
    pub max: u64,
}

/// The whole configuration of the service.
#[derive(Debug)]
pub struct AppConfig {
    pub symbol: String,
    pub binance: BinanceConfig,
    pub bitstamp: BitstampConfig,
    pub server: Server,
    pub backoff: BackoffConfig,
    pub max_aggregated_levels: usize,
    pub channel_size: usize,
}

} // verus!
