//! Common error values shared across the trading system's services.

use vstd::prelude::*;

verus! {

/// The system-wide error kinds. Each carries a short human-readable
/// detail where one helps.
#[derive(Clone, PartialEq, Eq, Debug)]
pub enum B25Error {
    InvalidDecimal(String),
    InvalidTimestamp(String),
    OrderValidationFailed(String),
    InsufficientBalance { required: String, available: String },
    PositionLimitExceeded(String),
    RateLimitExceeded,
    CircuitBreakerOpen,
    ExchangeError(String),
    WebSocketError(String),
    NetworkError(String),
    SerializationError(String),
    ConfigError(String),
    DatabaseError(String),
    NotFound(String),
    InternalError(String),
}

pub type B25Result<T> = Result<T, B25Error>;

} // verus!
