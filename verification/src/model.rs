//! What the lab records: market events, paper positions and their statistics.

use crate::audit::{AuditView, ExecutionAudit};
use crate::num::Num;
use crate::paper::{Diagnostics, LabConfig, StrategyReport};
use crate::text;
use vstd::prelude::*;

verus! {

/// The exchanges that the lab observes.
#[derive(Debug, Clone, Copy, PartialEq, Eq, Hash, Structural)]
pub enum Exchange {
    Binance,
    Bybit,
}

/// A name that is none of an exchange, in small letters.
#[derive(Debug)]
pub struct UnsupportedExchange {
    pub name: String,
}

impl UnsupportedExchange {
    /// What to tell whoever asked.
    pub fn message(&self) -> (r: String)
        ensures
            r@ == "unsupported exchange: "@ + self.name@,
    {
        "unsupported exchange: ".to_owned().concat(self.name.as_str())
    }
}

impl Exchange {
    /// The name of the exchange.
    pub open spec fn spec_name(self) -> Seq<char> {
        match self {
            Exchange::Binance => "binance"@,
            Exchange::Bybit => "bybit"@,
        }
    }

    /// The other exchange.
    pub open spec fn spec_peer(self) -> Exchange {
        match self {
            Exchange::Binance => Exchange::Bybit,
            Exchange::Bybit => Exchange::Binance,
        }
    }

    /// The name of the exchange.
    pub fn name(self) -> (r: &'static str)
        ensures
            r@ == self.spec_name(),
    {
        match self {
            Exchange::Binance => "binance",
            Exchange::Bybit => "bybit",
        }
    }

    /// The other exchange.
    #[verifier::when_used_as_spec(spec_peer)]
    pub fn peer(self) -> (r: Exchange)
        ensures
            r == self.spec_peer(),
    {
        match self {
            Exchange::Binance => Exchange::Bybit,
            Exchange::Bybit => Exchange::Binance,
        }
    }

    /// The exchange of that name, in letters of either case.
    pub fn from_str(value: &str) -> (r: Result<Exchange, UnsupportedExchange>)
        ensures
            match r {
                Ok(exchange) => text::lowered(value@) == exchange.spec_name(),
                Err(error) => {
                    &&& error.name@ == text::lowered(value@)
                    &&& error.name@ != Exchange::Binance.spec_name()
                    &&& error.name@ != Exchange::Bybit.spec_name()
                },
            },
    {
        let name = text::lower(value);
        if text::same(name.as_str(), "binance") {
            Ok(Exchange::Binance)
        } else if text::same(name.as_str(), "bybit") {
            Ok(Exchange::Bybit)
        } else {
            Err(UnsupportedExchange { name })
        }
    }
}

/// The two exchanges have different names.
pub proof fn lemma_names_differ()
    ensures
        Exchange::Binance.spec_name() != Exchange::Bybit.spec_name(),
{
    reveal_strlit("binance");
    reveal_strlit("bybit");
    assert("binance"@.len() != "bybit"@.len());
}

/// The view of an optional text.
pub open spec fn optional(text: Option<String>) -> Option<Seq<char>> {
    match text {
        Some(t) => Some(t@),
        None => None,
    }
}

/// One event of a market, as an exchange reported it.
#[derive(Debug, Clone)]
pub struct MarketEvent {
    pub exchange: Exchange,
    pub symbol: String,
    pub kind: String,
    pub event_ts: i64,
    pub received_ts: i64,
    pub price: Option<Num>,
    pub qty: Option<Num>,
    pub side: Option<String>,
    pub bid_price: Option<Num>,
    pub bid_qty: Option<Num>,
    pub ask_price: Option<Num>,
    pub ask_qty: Option<Num>,
    pub raw_json: String,
}

/// What a market event says.
#[verifier::ext_equal]
pub struct EventView {
    pub exchange: Exchange,
    pub symbol: Seq<char>,
    pub kind: Seq<char>,
    pub event_ts: i64,
    pub received_ts: i64,
    pub price: Option<Num>,
    pub qty: Option<Num>,
    pub side: Option<Seq<char>>,
    pub bid_price: Option<Num>,
    pub bid_qty: Option<Num>,
    pub ask_price: Option<Num>,
    pub ask_qty: Option<Num>,
    pub raw_json: Seq<char>,
}

impl View for MarketEvent {
    type V = EventView;

    open spec fn view(&self) -> EventView {
        EventView {
            exchange: self.exchange,
            symbol: self.symbol@,
            kind: self.kind@,
            event_ts: self.event_ts,
            received_ts: self.received_ts,
            price: self.price,
            qty: self.qty,
            side: optional(self.side),
            bid_price: self.bid_price,
            bid_qty: self.bid_qty,
            ask_price: self.ask_price,
            ask_qty: self.ask_qty,
            raw_json: self.raw_json@,
        }
    }
}

/// A stored event, with what the analysis reads of it.
#[derive(Debug, Clone)]
pub struct MarketPoint {
    pub kind: String,
    pub ts: i64,
    pub qty: Option<Num>,
    pub side: Option<String>,
    pub bid_price: Option<Num>,
    pub bid_qty: Option<Num>,
    pub ask_price: Option<Num>,
    pub ask_qty: Option<Num>,
}

/// What a market point says.
#[verifier::ext_equal]
pub struct PointView {
    pub kind: Seq<char>,
    pub ts: i64,
    pub qty: Option<Num>,
    pub side: Option<Seq<char>>,
    pub bid_price: Option<Num>,
    pub bid_qty: Option<Num>,
    pub ask_price: Option<Num>,
    pub ask_qty: Option<Num>,
}

impl View for MarketPoint {
    type V = PointView;

    open spec fn view(&self) -> PointView {
        PointView {
            kind: self.kind@,
            ts: self.ts,
            qty: self.qty,
            side: optional(self.side),
            bid_price: self.bid_price,
            bid_qty: self.bid_qty,
            ask_price: self.ask_price,
            ask_qty: self.ask_qty,
        }
    }
}

/// What of an event goes to whoever watches live.
#[derive(Debug, Clone)]
pub struct BusEvent {
    pub exchange: Exchange,
    pub symbol: String,
    pub kind: String,
    pub ts: i64,
    pub price: Option<Num>,
    pub qty: Option<Num>,
    pub side: Option<String>,
    pub bid_price: Option<Num>,
    pub ask_price: Option<Num>,
}

impl From<&MarketEvent> for BusEvent {
    fn from(event: &MarketEvent) -> (r: BusEvent) {
        BusEvent {
            exchange: event.exchange,
            symbol: event.symbol.clone(),
            kind: event.kind.clone(),
            ts: event.received_ts,
            price: event.price,
            qty: event.qty,
            side: match &event.side {
                Some(side) => Some(side.clone()),
                None => None,
            },
            bid_price: event.bid_price,
            ask_price: event.ask_price,
        }
    }
}

impl vstd::std_specs::convert::FromSpecImpl<&MarketEvent> for BusEvent {
    open spec fn obeys_from_spec() -> bool {
        true
    }

    open spec fn from_spec(event: &MarketEvent) -> BusEvent {
        BusEvent {
            exchange: event.exchange,
            symbol: event.symbol,
            kind: event.kind,
            ts: event.received_ts,
            price: event.price,
            qty: event.qty,
            side: event.side,
            bid_price: event.bid_price,
            ask_price: event.ask_price,
        }
    }
}

/// How the capture of an exchange stands.
#[derive(Debug, Clone)]
pub struct CaptureStatus {
    pub exchange: Exchange,
    pub running: bool,
    pub symbol: String,
    pub started_at: Option<i64>,
    pub messages: u64,
    pub last_event_at: Option<i64>,
    pub last_price: Option<Num>,
    pub last_error: Option<String>,
}

/// What a capture status says.
#[verifier::ext_equal]
pub struct StatusView {
    pub exchange: Exchange,
    pub running: bool,
    pub symbol: Seq<char>,
    pub started_at: Option<i64>,
    pub messages: u64,
    pub last_event_at: Option<i64>,
    pub last_price: Option<Num>,
    pub last_error: Option<Seq<char>>,
}

impl View for CaptureStatus {
    type V = StatusView;

    open spec fn view(&self) -> StatusView {
        StatusView {
            exchange: self.exchange,
            running: self.running,
            symbol: self.symbol@,
            started_at: self.started_at,
            messages: self.messages,
            last_event_at: self.last_event_at,
            last_price: self.last_price,
            last_error: optional(self.last_error),
        }
    }
}

impl CaptureStatus {
    /// A capture that has not run.
    pub open spec fn idle(exchange: Exchange) -> StatusView {
        StatusView {
            exchange,
            running: false,
            symbol: "BTCUSDT"@,
            started_at: None,
            messages: 0,
            last_event_at: None,
            last_price: None,
            last_error: None,
        }
    }

    /// A capture that has not run.
    pub fn new(exchange: Exchange) -> (r: CaptureStatus)
        ensures
            r@ == CaptureStatus::idle(exchange),
    {
        CaptureStatus {
            exchange,
            running: false,
            symbol: "BTCUSDT".to_owned(),
            started_at: None,
            messages: 0,
            last_event_at: None,
            last_price: None,
            last_error: None,
        }
    }
}

/// A paper position.
#[derive(Debug, Clone)]
pub struct Prediction {
    pub id: String,
    pub exchange: Exchange,
    pub symbol: String,
    pub created_at: i64,
    pub horizon_secs: i64,
    pub direction: String,
    pub entry_price: Num,
    pub target_price: Num,
    pub stop_price: Num,
    pub confidence: Num,
    pub score: Num,
    pub expected_return: Num,
    pub strategy: String,
    pub status: String,
    pub resolved_at: Option<i64>,
    pub exit_price: Option<Num>,
    pub pnl_bps: Option<Num>,
    pub config_id: String,
    pub fee_bps: Num,
    pub slippage_bps: Num,
    pub notional: Num,
    pub gross_pnl_bps: Option<Num>,
    pub cursor_id: i64,
    pub last_quote_ts: i64,
    pub mark_price: Option<Num>,
    pub max_gap_ms: i64,
    pub entry_reason: String,
    /// What was known when the position was opened. None for rows that predate it.
    pub entry_snapshot: Option<serde_json::Value>,
    pub execution_audit: Option<ExecutionAudit>,
}

/// What a paper position says.
#[verifier::ext_equal]
pub struct PredictionView {
    pub id: Seq<char>,
    pub exchange: Exchange,
    pub symbol: Seq<char>,
    pub created_at: i64,
    pub horizon_secs: i64,
    pub direction: Seq<char>,
    pub entry_price: Num,
    pub target_price: Num,
    pub stop_price: Num,
    pub confidence: Num,
    pub score: Num,
    pub expected_return: Num,
    pub strategy: Seq<char>,
    pub status: Seq<char>,
    pub resolved_at: Option<i64>,
    pub exit_price: Option<Num>,
    pub pnl_bps: Option<Num>,
    pub config_id: Seq<char>,
    pub fee_bps: Num,
    pub slippage_bps: Num,
    pub notional: Num,
    pub gross_pnl_bps: Option<Num>,
    pub cursor_id: i64,
    pub last_quote_ts: i64,
    pub mark_price: Option<Num>,
    pub max_gap_ms: i64,
    pub entry_reason: Seq<char>,
    pub entry_snapshot: Option<serde_json::Value>,
    pub execution_audit: Option<AuditView>,
}

impl View for Prediction {
    type V = PredictionView;

    open spec fn view(&self) -> PredictionView {
        PredictionView {
            id: self.id@,
            exchange: self.exchange,
            symbol: self.symbol@,
            created_at: self.created_at,
            horizon_secs: self.horizon_secs,
            direction: self.direction@,
            entry_price: self.entry_price,
            target_price: self.target_price,
            stop_price: self.stop_price,
            confidence: self.confidence,
            score: self.score,
            expected_return: self.expected_return,
            strategy: self.strategy@,
            status: self.status@,
            resolved_at: self.resolved_at,
            exit_price: self.exit_price,
            pnl_bps: self.pnl_bps,
            config_id: self.config_id@,
            fee_bps: self.fee_bps,
            slippage_bps: self.slippage_bps,
            notional: self.notional,
            gross_pnl_bps: self.gross_pnl_bps,
            cursor_id: self.cursor_id,
            last_quote_ts: self.last_quote_ts,
            mark_price: self.mark_price,
            max_gap_ms: self.max_gap_ms,
            entry_reason: self.entry_reason@,
            entry_snapshot: self.entry_snapshot,
            execution_audit: match self.execution_audit {
                Some(audit) => Some(audit@),
                None => None,
            },
        }
    }
}

/// The greatest distance from the epoch, in milliseconds, of a time that the lab computes with.
pub const MOMENT_LIMIT: i64 = 0x2000_0000_0000_0000;

/// Whether sums and differences of a few such times stay within 64 bits.
pub open spec fn spec_is_moment(t: i64) -> bool {
    -MOMENT_LIMIT <= t <= MOMENT_LIMIT
}

/// Whether sums and differences of a few such times stay within 64 bits.
#[verifier::when_used_as_spec(spec_is_moment)]
pub fn is_moment(t: i64) -> (r: bool)
    ensures
        r == spec_is_moment(t),
{
    -MOMENT_LIMIT <= t && t <= MOMENT_LIMIT
}

impl PredictionView {
    /// Whether the times of a position can be computed with.
    pub open spec fn timely(self) -> bool {
        &&& is_moment(self.created_at)
        &&& is_moment(self.last_quote_ts)
        &&& -MOMENT_LIMIT <= self.horizon_secs * 1000 <= MOMENT_LIMIT
        &&& self.resolved_at is Some ==> is_moment(self.resolved_at->0)
    }

    /// When the position is closed at the latest.
    pub open spec fn deadline(self) -> int {
        self.created_at + self.horizon_secs * 1000
    }
}

impl Prediction {
    /// Whether the times of a position can be computed with.
    pub fn is_timely(&self) -> (r: bool)
        ensures
            r == self@.timely(),
    {
        let lasting = self.horizon_secs as i128 * 1000;
        is_moment(self.created_at) && is_moment(self.last_quote_ts) && -(MOMENT_LIMIT as i128)
            <= lasting && lasting <= MOMENT_LIMIT as i128 && (match self.resolved_at {
            Some(at) => is_moment(at),
            None => true,
        })
    }
}

/// The views of positions.
pub open spec fn views(items: Seq<Prediction>) -> Seq<PredictionView> {
    Seq::new(items.len(), |i: int| items[i]@)
}

/// Forward statistics of a group of positions.
#[derive(Debug, Clone, Copy, PartialEq, Eq, Structural)]
pub struct PredictionStats {
    pub total: i64,
    pub resolved: i64,
    pub wins: i64,
    pub losses: i64,
    pub timeouts: i64,
    pub win_rate: Num,
    pub avg_pnl_bps: Num,
    pub open: i64,
    pub unmarked_open: i64,
    pub invalid: i64,
    pub breakeven: i64,
    pub target_hits: i64,
    pub strict_win_rate: Num,
    pub win_rate_low: Num,
    pub win_rate_high: Num,
    pub net_pnl: Num,
    pub unrealized_pnl: Num,
    pub profit_factor: Option<Num>,
    pub gross_profit: Num,
    pub gross_loss: Num,
    pub closed_drawdown_pct: Num,
    pub initial_capital: Num,
    pub return_pct: Num,
    pub sample_ready: bool,
}

/// What the page of an exchange shows.
#[derive(Debug, Clone)]
pub struct Dashboard {
    pub capture: CaptureStatus,
    pub analysis_running: bool,
    pub stored_events: i64,
    pub stats: PredictionStats,
    pub predictions: Vec<Prediction>,
    pub strategies: Vec<StrategyReport>,
    pub diagnostics: Diagnostics,
    pub config: LabConfig,
    pub config_id: String,
    pub archived_predictions: i64,
}

/// `chrono::Utc::now().timestamp_millis()`: the time by the machine's clock, in milliseconds
/// since the epoch. Nothing is claimed of it.
#[verifier::external_body]
pub fn now_ms() -> i64 {
    chrono::Utc::now().timestamp_millis()
}

} // verus!
