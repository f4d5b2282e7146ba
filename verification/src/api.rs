//! How requests are judged, and what the pages show.

use crate::export::{exchange_named, integer_in, is_symbol};
use crate::model::{views, CaptureStatus, Dashboard, Exchange, Prediction, StatusView};
use crate::num::Num;
use crate::paper;
use crate::paper::ledger::ref_views;
use crate::paper::{Diagnostics, LabConfig};
use crate::text;
use crate::text::{begins, digits_of, raised, trimmed, whole_number};
use vstd::prelude::*;

verus! {

/// A request that is not granted: the HTTP status, and what to tell whoever asked.
#[derive(Debug)]
pub struct ApiError {
    pub status: u16,
    pub message: String,
}

/// What an error says.
#[verifier::ext_equal]
pub struct ErrorView {
    pub status: u16,
    pub message: Seq<char>,
}

impl View for ApiError {
    type V = ErrorView;

    open spec fn view(&self) -> ErrorView {
        ErrorView { status: self.status, message: self.message@ }
    }
}

pub const BAD_REQUEST: u16 = 400;

pub const UNAUTHORIZED: u16 = 401;

pub const NOT_FOUND: u16 = 404;

pub const CONFLICT: u16 = 409;

pub const PAYLOAD_TOO_LARGE: u16 = 413;

pub const INTERNAL_SERVER_ERROR: u16 = 500;

pub const SERVICE_UNAVAILABLE: u16 = 503;

impl ApiError {
    /// An error with a message.
    pub fn new(status: u16, message: &str) -> (r: ApiError)
        ensures
            r@ == (ErrorView { status, message: message@ }),
    {
        ApiError { status, message: message.to_owned() }
    }
}

/// The exchange that a request names.
pub fn parse_exchange(value: &str) -> (r: Result<Exchange, ApiError>)
    ensures
        match r {
            Ok(exchange) => exchange_named(value@) == Some(exchange),
            Err(error) => exchange_named(value@) is None && error@ == (ErrorView {
                status: BAD_REQUEST,
                message: "exchange must be binance or bybit"@,
            }),
        },
{
    proof {
        crate::model::lemma_names_differ();
    }
    match Exchange::from_str(value) {
        Ok(exchange) => Ok(exchange),
        Err(_) => Err(ApiError::new(BAD_REQUEST, "exchange must be binance or bybit")),
    }
}

/// The symbol that a request names: trimmed, in capitals.
pub fn normalize_symbol(value: &str) -> (r: Result<String, ApiError>)
    ensures
        match r {
            Ok(symbol) => symbol@ == raised(trimmed(value@)) && is_symbol(symbol@),
            Err(error) => !is_symbol(raised(trimmed(value@))) && error@ == (ErrorView {
                status: BAD_REQUEST,
                message: "invalid symbol"@,
            }),
        },
{
    let symbol = text::upper(text::trim(value).as_str());
    if crate::export::fits_symbol(symbol.as_str()) {
        Ok(symbol)
    } else {
        Err(ApiError::new(BAD_REQUEST, "invalid symbol"))
    }
}

proof fn lemma_no_space_to_trim(s: Seq<char>)
    requires
        forall|i: int| 0 <= i < s.len() ==> text::is_alphanumeric(#[trigger] s[i]),
    ensures
        trimmed(s) == s,
{
    if s.len() > 0 {
        assert(text::is_alphanumeric(s[0]));
        assert(text::is_alphanumeric(s[s.len() - 1]));
    }
}

/// A symbol that was granted once is granted again, unchanged.
pub proof fn lemma_symbol_is_stable(value: Seq<char>)
    requires
        is_symbol(raised(trimmed(value))),
    ensures
        raised(trimmed(raised(trimmed(value)))) == raised(trimmed(value)),
{
    let symbol = raised(trimmed(value));
    lemma_no_space_to_trim(symbol);
    assert(raised(symbol) =~= symbol);
}

/// The symbol that a request asks for, where it names none.
pub const DEFAULT_SYMBOL: &'static str = "BTCUSDT";

/// The symbol of a request that may name none.
pub open spec fn symbol_or(requested: Option<&str>, default: Seq<char>) -> Seq<char> {
    match requested {
        Some(value) => value@,
        None => default,
    }
}

/// The symbol that a request asks for.
pub fn requested_symbol(requested: Option<&str>) -> (r: Result<String, ApiError>)
    ensures
        match r {
            Ok(symbol) => symbol@ == raised(trimmed(symbol_or(requested, DEFAULT_SYMBOL@)))
                && is_symbol(symbol@),
            Err(error) => !is_symbol(raised(trimmed(symbol_or(requested, DEFAULT_SYMBOL@))))
                && error@ == (ErrorView { status: BAD_REQUEST, message: "invalid symbol"@ }),
        },
{
    match requested {
        Some(value) => normalize_symbol(value),
        None => normalize_symbol(DEFAULT_SYMBOL),
    }
}

/// Whether a capture runs for another symbol.
pub open spec fn conflicts(status: StatusView, symbol: Seq<char>) -> bool {
    status.running && status.symbol != symbol
}

/// A running capture keeps its symbol.
pub fn check_capture_start(current: &CaptureStatus, symbol: &str) -> (r: Result<(), ApiError>)
    ensures
        match r {
            Ok(()) => !conflicts(current@, symbol@),
            Err(error) => conflicts(current@, symbol@) && error@ == (ErrorView {
                status: CONFLICT,
                message: "Stop this exchange before changing its symbol"@,
            }),
        },
{
    if current.running && !text::same(current.symbol.as_str(), symbol) {
        Err(ApiError::new(CONFLICT, "Stop this exchange before changing its symbol"))
    } else {
        Ok(())
    }
}

/// What to tell of a capture that has to stop first.
pub open spec fn stop_first(exchange: Exchange) -> ErrorView {
    ErrorView {
        status: CONFLICT,
        message: "Stop "@ + exchange.spec_name() + " before changing its symbol"@,
    }
}

/// Both captures are judged before either starts, so that a conflict is never hidden.
pub fn check_lab_start(binance: &CaptureStatus, bybit: &CaptureStatus, symbol: &str) -> (r: Result<
    (),
    ApiError,
>)
    ensures
        match r {
            Ok(()) => !conflicts(binance@, symbol@) && !conflicts(bybit@, symbol@),
            Err(error) => if conflicts(binance@, symbol@) {
                error@ == stop_first(Exchange::Binance)
            } else {
                conflicts(bybit@, symbol@) && error@ == stop_first(Exchange::Bybit)
            },
        },
{
    let blocking = if check_capture_start(binance, symbol).is_err() {
        Exchange::Binance
    } else if check_capture_start(bybit, symbol).is_err() {
        Exchange::Bybit
    } else {
        return Ok(());
    };
    let message = "Stop ".to_owned().concat(blocking.name()).concat(
        " before changing its symbol",
    );
    Err(ApiError { status: CONFLICT, message })
}

/// The symbol to analyse: the one asked for, or that of the capture. Only a running capture of
/// that symbol can be analysed.
pub fn check_analysis_start(current: &CaptureStatus, requested: Option<&str>) -> (r: Result<
    String,
    ApiError,
>)
    ensures
        ({
            let symbol = raised(trimmed(symbol_or(requested, current.symbol@)));
            match r {
                Ok(s) => {
                    &&& s@ == symbol
                    &&& is_symbol(symbol)
                    &&& current.running
                    &&& current.symbol@ == symbol
                },
                Err(error) => if !is_symbol(symbol) {
                    error@ == (ErrorView { status: BAD_REQUEST, message: "invalid symbol"@ })
                } else {
                    &&& !current.running || current.symbol@ != symbol
                    &&& error@ == (ErrorView {
                        status: CONFLICT,
                        message: "Start capture for this symbol first"@,
                    })
                },
            }
        }),
{
    let wanted = match requested {
        Some(value) => normalize_symbol(value),
        None => normalize_symbol(current.symbol.as_str()),
    };
    match wanted {
        Ok(symbol) => if !current.running || !text::same(
            current.symbol.as_str(),
            symbol.as_str(),
        ) {
            Err(ApiError::new(CONFLICT, "Start capture for this symbol first"))
        } else {
            Ok(symbol)
        },
        Err(error) => Err(error),
    }
}

/// Protected actions need the token of the server. Without one of its own, the server refuses
/// all of them.
pub fn require_admin(token: &str, supplied: Option<&str>) -> (r: Result<(), ApiError>)
    ensures
        match r {
            Ok(()) => token@.len() > 0 && supplied is Some && supplied->0@ == token@,
            Err(error) => if token@.len() == 0 {
                error@ == (ErrorView {
                    status: SERVICE_UNAVAILABLE,
                    message: "admin actions are not configured on this server"@,
                })
            } else {
                &&& supplied is None || supplied->0@ != token@
                &&& error@ == (ErrorView {
                    status: UNAUTHORIZED,
                    message: "invalid admin token"@,
                })
            },
        },
{
    if token.unicode_len() == 0 {
        return Err(
            ApiError::new(
                SERVICE_UNAVAILABLE,
                "admin actions are not configured on this server",
            ),
        );
    }
    if let Some(value) = supplied {
        if text::same(value, token) {
            return Ok(());
        }
    }
    Err(ApiError::new(UNAUTHORIZED, "invalid admin token"))
}

/// How many positions a list shows: one to 500, and 100 where the request names no number.
pub open spec fn limit_in(value: Option<&str>) -> i64 {
    let n = match value {
        Some(text) => match integer_in(text@) {
            Some(n) => n,
            None => 100,
        },
        None => 100,
    };
    if n < 1 {
        1
    } else if n > 500 {
        500
    } else {
        n
    }
}

/// A list never shows fewer than one position nor more than 500, and as many as are asked for
/// where that is within these.
pub proof fn lemma_limit_is_kept(value: Option<&str>)
    ensures
        1 <= limit_in(value) <= 500,
        value is None ==> limit_in(value) == 100,
        value is Some && integer_in(value->0@) is None ==> limit_in(value) == 100,
        value is Some && integer_in(value->0@) is Some && 1 <= integer_in(value->0@)->0 <= 500
            ==> limit_in(value) == integer_in(value->0@)->0,
{
}

/// A capture conflicts with another symbol while it runs, and never otherwise.
pub proof fn lemma_only_running_captures_conflict(status: StatusView, symbol: Seq<char>)
    ensures
        !status.running ==> !conflicts(status, symbol),
        !conflicts(status, status.symbol),
        status.running && status.symbol != symbol ==> conflicts(status, symbol),
{
}

/// How many positions a list shows.
pub fn parse_limit(value: Option<&str>) -> (r: i64)
    ensures
        r == limit_in(value),
{
    let n = match value {
        Some(text) => match text::parse_int(text) {
            Some(n) => n,
            None => 100,
        },
        None => 100,
    };
    if n < 1 {
        1
    } else if n > 500 {
        500
    } else {
        n
    }
}

/// The configuration whose positions a list shows: the current one unless another is named, and
/// any for `all`.
pub fn config_filter(requested: Option<&str>, current: &str) -> (r: Option<String>)
    ensures
        ({
            let wanted = symbol_or(requested, current@);
            match r {
                Some(id) => wanted != "all"@ && id@ == wanted,
                None => wanted == "all"@,
            }
        }),
{
    let wanted = match requested {
        Some(value) => value,
        None => current,
    };
    if text::same(wanted, "all") {
        None
    } else {
        Some(wanted.to_owned())
    }
}

/// The line that has a running capture start again.
pub open spec fn resume_line(exchange: Exchange, status: StatusView) -> Seq<char> {
    if status.running {
        exchange.spec_name() + " "@ + status.symbol + "\n"@
    } else {
        Seq::empty()
    }
}

/// The lines that have running captures start again after an update.
pub fn resume_text(binance: &CaptureStatus, bybit: &CaptureStatus) -> (r: String)
    ensures
        r@ == resume_line(Exchange::Binance, binance@) + resume_line(Exchange::Bybit, bybit@),
{
    let mut out = String::new();
    if binance.running {
        out = out.concat("binance").concat(" ").concat(binance.symbol.as_str()).concat("\n");
    }
    assert(out@ =~= resume_line(Exchange::Binance, binance@));
    let ghost first = out@;
    if bybit.running {
        out = out.concat("bybit").concat(" ").concat(bybit.symbol.as_str()).concat("\n");
    }
    assert(out@ =~= first + resume_line(Exchange::Bybit, bybit@));
    out
}

/// The formats of an export.
#[derive(Debug, Clone, Copy, PartialEq, Eq, Structural)]
pub enum Format {
    Json,
    Csv,
}

impl Format {
    /// The name of a format.
    pub open spec fn spec_name(self) -> Seq<char> {
        match self {
            Format::Json => "json"@,
            Format::Csv => "csv"@,
        }
    }

    /// The name of a format.
    pub fn name(self) -> (r: &'static str)
        ensures
            r@ == self.spec_name(),
    {
        match self {
            Format::Json => "json",
            Format::Csv => "csv",
        }
    }

    /// The media type of a format.
    pub fn content_type(self) -> (r: &'static str)
        ensures
            r@ == match self {
                Format::Json => "application/json; charset=utf-8"@,
                Format::Csv => "text/csv; charset=utf-8"@,
            },
    {
        match self {
            Format::Json => "application/json; charset=utf-8",
            Format::Csv => "text/csv; charset=utf-8",
        }
    }
}

/// The format that a request asks for; JSON where it names none.
pub fn export_format(requested: Option<&str>) -> (r: Result<Format, ApiError>)
    ensures
        ({
            let name = symbol_or(requested, "json"@);
            match r {
                Ok(format) => name == format.spec_name(),
                Err(error) => {
                    &&& name != Format::Json.spec_name()
                    &&& name != Format::Csv.spec_name()
                    &&& error@ == (ErrorView {
                        status: BAD_REQUEST,
                        message: "Export format must be json or csv"@,
                    })
                },
            }
        }),
{
    let name = match requested {
        Some(value) => value,
        None => "json",
    };
    if text::same(name, "json") {
        Ok(Format::Json)
    } else if text::same(name, "csv") {
        Ok(Format::Csv)
    } else {
        Err(ApiError::new(BAD_REQUEST, "Export format must be json or csv"))
    }
}

/// The name of an exported file: when it was made, and how many positions it holds.
pub fn export_filename(stamp: &str, count: usize, format: Format) -> (r: String)
    ensures
        r@ == "market-lab-positions-"@ + stamp@ + "-"@ + digits_of(count as nat) + "."@
            + format.spec_name(),
{
    "market-lab-positions-".to_owned().concat(stamp).concat("-").concat(
        text::count_text(count as u64).as_str(),
    ).concat(".").concat(format.name())
}

/// The port that a setting names; 8080 where it names none.
pub open spec fn port_in(value: Option<&str>) -> u16 {
    match value {
        Some(text) => match whole_number(text@) {
            Some(n) => if 0 <= n <= u16::MAX && !begins(text@, "-"@) {
                n as u16
            } else {
                8080
            },
            None => 8080,
        },
        None => 8080,
    }
}

/// The port that a setting names.
pub fn parse_port(value: Option<&str>) -> (r: u16)
    ensures
        r == port_in(value),
{
    if let Some(text) = value {
        if let Some(n) = text::parse_int(text) {
            if 0 <= n && n <= 65_535 && !text::starts_with(text, "-") {
                return n as u16;
            }
        }
    }
    8080
}

/// How many positions a page shows.
pub const PAGE_POSITIONS: usize = 120;

/// Whether a page shows what is known: statistics over all positions of the experiment, whose
/// account has the capital of every lane, and the newest positions alone.
pub open spec fn shows(d: Dashboard, positions: Seq<Prediction>, c: LabConfig) -> bool {
    let s = views(positions);
    &&& d.stats == paper::stats_of(
        s,
        c.initial_capital.times(Num::from_int(4)).times(Num::from_int(6)),
        c,
    )
    &&& d.strategies@.len() == 6
    &&& forall|k: int|
        0 <= k < 6 ==> paper::reports_on(#[trigger] d.strategies@[k], paper::STRATEGIES@[k], s, c)
    &&& d.predictions@ == if positions.len() <= PAGE_POSITIONS {
        positions
    } else {
        positions.take(PAGE_POSITIONS as int)
    }
}

/// What the page of an exchange shows, of all positions of the experiment, newest first.
pub fn dashboard(
    capture: CaptureStatus,
    analysis_running: bool,
    stored_events: i64,
    positions: Vec<Prediction>,
    diagnostics: Diagnostics,
    config: LabConfig,
    config_id: String,
    archived_predictions: i64,
) -> (r: Dashboard)
    requires
        positions@.len() <= i64::MAX,
    ensures
        shows(r, positions@, config),
        r.capture == capture,
        r.analysis_running == analysis_running,
        r.stored_events == stored_events,
        r.diagnostics == diagnostics,
        r.config == config,
        r.config_id == config_id,
        r.archived_predictions == archived_predictions,
{
    let ghost given = positions@;
    let mut predictions = positions;
    let strategies = paper::reports(predictions.as_slice(), &config);
    let mut refs: Vec<&Prediction> = Vec::new();
    for n in 0..predictions.len()
        invariant
            refs@.len() == n,
            forall|i: int| 0 <= i < n ==> *(#[trigger] refs@[i]) == predictions@[i],
    {
        refs.push(&predictions[n]);
    }
    assert(ref_views(refs@) =~= views(given));
    let capital = config.initial_capital.times(Num::from_int(4)).times(Num::from_int(6));
    let stats = paper::stats(refs.as_slice(), capital, &config);
    if predictions.len() > PAGE_POSITIONS {
        predictions.truncate(PAGE_POSITIONS);
    }
    Dashboard {
        capture,
        analysis_running,
        stored_events,
        stats,
        predictions,
        strategies,
        diagnostics,
        config,
        config_id,
        archived_predictions,
    }
}

} // verus!
