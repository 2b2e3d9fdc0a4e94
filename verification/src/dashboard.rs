//! Data model of the terminal dashboard client.
//!
//! The dashboard's rendering and key handling live outside the library;
//! these are the plain values they exchange, plus the panel-cycling
//! rules, which are pure and verified.

use vstd::prelude::*;

verus! {

#[derive(Clone, Copy, PartialEq, Eq, Structural, Debug)]
pub enum PositionSide {
    Long,
    Short,
}

#[derive(Clone, Copy, PartialEq, Eq, Structural, Debug)]
pub enum OrderSide {
    Buy,
    Sell,
}

#[derive(Clone, Copy, PartialEq, Eq, Structural, Debug)]
pub enum OrderType {
    Limit,
    Market,
    StopLimit,
    StopMarket,
}

#[derive(Clone, Copy, PartialEq, Eq, Structural, Debug)]
pub enum OrderStatus {
    New,
    PartiallyFilled,
    Filled,
    Canceled,
    Rejected,
}

#[derive(Clone, Copy, PartialEq, Eq, Structural, Debug)]
pub enum SignalType {
    Long,
    Short,
    Neutral,
}

#[derive(Clone, Copy, PartialEq, Eq, Structural, Debug)]
pub enum AlertLevel {
    Info,
    Warning,
    Error,
}

#[derive(Clone, Copy, PartialEq, Eq, Structural, Debug)]
pub enum ConnectionStatus {
    Disconnected,
    Connecting,
    Connected,
    Error,
}

#[derive(Clone, Copy, PartialEq, Eq, Structural, Debug)]
pub enum InputMode {
    Normal,
    Command,
}

#[derive(Clone, Copy, PartialEq, Eq, Structural, Debug)]
pub enum Panel {
    Positions,
    Orders,
    Fills,
    OrderBook,
    Signals,
    Alerts,
}

/// The panel after `p` in display order, wrapping around.
pub open spec fn spec_next_panel(p: Panel) -> Panel {
    match p {
        Panel::Positions => Panel::Orders,
        Panel::Orders => Panel::Fills,
        Panel::Fills => Panel::OrderBook,
        Panel::OrderBook => Panel::Signals,
        Panel::Signals => Panel::Alerts,
        Panel::Alerts => Panel::Positions,
    }
}

/// The panel before `p` in display order, wrapping around.
pub open spec fn spec_prev_panel(p: Panel) -> Panel {
    match p {
        Panel::Positions => Panel::Alerts,
        Panel::Orders => Panel::Positions,
        Panel::Fills => Panel::Orders,
        Panel::OrderBook => Panel::Fills,
        Panel::Signals => Panel::OrderBook,
        Panel::Alerts => Panel::Signals,
    }
}

impl Panel {
    pub fn next(&self) -> (r: Panel)
        ensures
            r == spec_next_panel(*self),
            spec_prev_panel(r) == *self,
    {
        match self {
            Panel::Positions => Panel::Orders,
            Panel::Orders => Panel::Fills,
            Panel::Fills => Panel::OrderBook,
            Panel::OrderBook => Panel::Signals,
            Panel::Signals => Panel::Alerts,
            Panel::Alerts => Panel::Positions,
        }
    }

    pub fn prev(&self) -> (r: Panel)
        ensures
            r == spec_prev_panel(*self),
            spec_next_panel(r) == *self,
    {
        match self {
            Panel::Positions => Panel::Alerts,
            Panel::Orders => Panel::Positions,
            Panel::Fills => Panel::Orders,
            Panel::OrderBook => Panel::Fills,
            Panel::Signals => Panel::OrderBook,
            Panel::Alerts => Panel::Signals,
        }
    }
}

/// What the key handlers ask the application loop to do.
#[derive(Clone, PartialEq, Eq, Debug)]
pub enum Action {
    Quit,
    NextPanel,
    PrevPanel,
    ShowHelp,
    ReloadConfig,
    EnterCommandMode,
    ExitCommandMode,
    CommandInput(char),
    CommandBackspace,
    ExecuteCommand(String),
    CancelSelectedOrder,
    CancelAllOrders,
    CloseSelectedPosition,
    CloseAllPositions,
    ScrollUp,
    ScrollDown,
}

/// Which panels need redrawing.
#[derive(Clone, Copy, PartialEq, Eq, Structural, Debug)]
pub struct DirtyFlags {
    pub positions: bool,
    pub orders: bool,
    pub orderbook: bool,
    pub fills: bool,
    pub signals: bool,
    pub alerts: bool,
    pub status: bool,
    pub all: bool,
}

impl Default for DirtyFlags {
    /// Nothing needs redrawing.
    fn default() -> (r: DirtyFlags)
        ensures
            r == (DirtyFlags {
                positions: false,
                orders: false,
                orderbook: false,
                fills: false,
                signals: false,
                alerts: false,
                status: false,
                all: false,
            }),
    {
        DirtyFlags {
            positions: false,
            orders: false,
            orderbook: false,
            fills: false,
            signals: false,
            alerts: false,
            status: false,
            all: false,
        }
    }
}

/// What the dashboard client sends upstream.
#[derive(Clone, PartialEq, Eq, Debug)]
pub enum ClientMessage {
    Subscribe { channels: Vec<String> },
    Pong { timestamp: i64 },
}

#[derive(Clone, Debug)]
pub struct ConnectionConfig {
    pub dashboard_url: String,
    pub reconnect_interval_ms: u64,
    pub max_reconnect_interval_ms: u64,
    pub timeout_ms: u64,
}

#[derive(Clone, Debug)]
pub struct UiConfig {
    pub refresh_rate_ms: u64,
    pub color_scheme: String,
    pub show_milliseconds: bool,
    pub stale_data_threshold_s: u64,
}

#[derive(Clone, Debug)]
pub struct PanelsConfig {
    pub default_symbol: String,
    pub max_fills_display: usize,
    pub max_signals_display: usize,
    pub max_alerts_display: usize,
    pub orderbook_depth_levels: usize,
    pub alert_auto_dismiss_s: u64,
}

#[derive(Clone, Debug)]
pub struct KeyboardConfig {
    pub quit_keys: Vec<String>,
    pub help_key: String,
    pub reload_key: String,
    pub command_key: String,
    pub search_key: String,
}

#[derive(Clone, Debug)]
pub struct LoggingConfig {
    pub level: String,
    pub file: String,
    pub json: bool,
}

} // verus!
