//! Diagnostics of positions for whoever wants to look into them.

pub mod csv;
pub mod group;

pub use csv::{csv, csv_text};
pub use group::{report, report_at};

use crate::audit;
use crate::audit::{
    diagnosis_of, lemma_diagnosis_follows_the_result, DiagnosisView, PositionDiagnosis,
};
use crate::model::{optional, Exchange, Prediction, PredictionView};
use crate::num::Num;
use crate::paper::ledger::{lemma_tally_push, tally};
use crate::paper::{find_named, named, setting_views};
use crate::text;
use crate::text::{raised, trimmed, whole_number};
use vstd::prelude::*;

verus! {

/// The greatest number of positions in one export.
pub const MAX_EXPORT_POSITIONS: i64 = 25_000;

/// More positions match than one export may hold.
#[derive(Debug)]
pub struct ExportTooLarge;

impl ExportTooLarge {
    /// What to tell whoever asked.
    pub fn message(&self) -> (r: &'static str)
        ensures
            r@ == "More than 25000 positions match. Select a shorter date range, exchange or strategy; no partial file was exported."@,
    {
        "More than 25000 positions match. Select a shorter date range, exchange or strategy; no partial file was exported."
    }
}

/// An export holds all matching positions or none.
pub fn check_export_size(rows: usize) -> (r: Result<(), ExportTooLarge>)
    ensures
        r is Err <==> rows > MAX_EXPORT_POSITIONS,
{
    if rows as i128 > MAX_EXPORT_POSITIONS as i128 {
        Err(ExportTooLarge)
    } else {
        Ok(())
    }
}

/// Which positions to export.
#[derive(Debug, Clone)]
pub struct ExportFilters {
    pub exchange: Option<Exchange>,
    pub symbol: Option<String>,
    pub strategy: Option<String>,
    pub horizon_secs: Option<i64>,
    pub status: Option<String>,
    pub config_id: Option<String>,
    pub from_ms: Option<i64>,
    pub to_ms: Option<i64>,
}

/// What filters say.
#[verifier::ext_equal]
pub struct FiltersView {
    pub exchange: Option<Exchange>,
    pub symbol: Option<Seq<char>>,
    pub strategy: Option<Seq<char>>,
    pub horizon_secs: Option<i64>,
    pub status: Option<Seq<char>>,
    pub config_id: Option<Seq<char>>,
    pub from_ms: Option<i64>,
    pub to_ms: Option<i64>,
}

impl View for ExportFilters {
    type V = FiltersView;

    open spec fn view(&self) -> FiltersView {
        FiltersView {
            exchange: self.exchange,
            symbol: optional(self.symbol),
            strategy: optional(self.strategy),
            horizon_secs: self.horizon_secs,
            status: optional(self.status),
            config_id: optional(self.config_id),
            from_ms: self.from_ms,
            to_ms: self.to_ms,
        }
    }
}

impl Default for ExportFilters {
    /// No filter at all.
    fn default() -> (r: ExportFilters)
        ensures
            r@ == (FiltersView {
                exchange: None,
                symbol: None,
                strategy: None,
                horizon_secs: None,
                status: None,
                config_id: None,
                from_ms: None,
                to_ms: None,
            }),
    {
        ExportFilters {
            exchange: None,
            symbol: None,
            strategy: None,
            horizon_secs: None,
            status: None,
            config_id: None,
            from_ms: None,
            to_ms: None,
        }
    }
}

/// A pair of a name and a text.
pub type Pairs = Seq<(Seq<char>, Seq<char>)>;

/// Whether a name is that of a filter, or of the format.
pub open spec fn is_filter_name(name: Seq<char>) -> bool {
    ||| name == "format"@
    ||| name == "exchange"@
    ||| name == "symbol"@
    ||| name == "strategy"@
    ||| name == "horizon"@
    ||| name == "status"@
    ||| name == "config"@
    ||| name == "from_ms"@
    ||| name == "to_ms"@
}

/// The first name of a query that is none of a filter.
pub open spec fn unknown_name(query: Pairs) -> Option<Seq<char>>
    decreases query.len(),
{
    if query.len() == 0 {
        None
    } else if !is_filter_name(query[0].0) {
        Some(query[0].0)
    } else {
        unknown_name(query.drop_first())
    }
}

/// What a query selects under a name: nothing where the text is missing, empty or `all`.
pub open spec fn selected(query: Pairs, name: Seq<char>) -> Option<Seq<char>> {
    match named(query, name) {
        Some(text) => if text.len() == 0 || text == "all"@ {
            None
        } else {
            Some(text)
        },
        None => None,
    }
}

/// Whether a text can be a symbol: five to 24 ASCII letters and digits.
pub open spec fn is_symbol(s: Seq<char>) -> bool {
    5 <= s.len() <= 24 && forall|i: int|
        0 <= i < s.len() ==> text::is_alphanumeric(#[trigger] s[i])
}

/// Whether a text can be an identifier: up to 100 ASCII letters, digits, dashes and underscores.
pub open spec fn is_identifier(s: Seq<char>) -> bool {
    s.len() <= 100 && forall|i: int|
        0 <= i < s.len() ==> text::is_alphanumeric(#[trigger] s[i]) || s[i] == '_' || s[i] == '-'
}

/// Whether a text is the status of a position.
pub open spec fn is_status(s: Seq<char>) -> bool {
    s == "OPEN"@ || s == "WIN"@ || s == "LOSS"@ || s == "TIMEOUT"@ || s == "DATA_GAP"@
}

/// The exchange that a text names, in letters of either case.
pub open spec fn exchange_named(s: Seq<char>) -> Option<Exchange> {
    if text::lowered(s) == Exchange::Binance.spec_name() {
        Some(Exchange::Binance)
    } else if text::lowered(s) == Exchange::Bybit.spec_name() {
        Some(Exchange::Bybit)
    } else {
        None
    }
}

/// The name of an exchange, as it is stored, reads back as that exchange.
pub proof fn lemma_name_reads_back(exchange: Exchange)
    ensures
        exchange_named(exchange.spec_name()) == Some(exchange),
{
    crate::model::lemma_names_differ();
    reveal_strlit("binance");
    reveal_strlit("bybit");
    assert(text::lowered("binance"@) =~= "binance"@);
    assert(text::lowered("bybit"@) =~= "bybit"@);
}

/// A whole number of 64 signed bits that a text spells.
pub open spec fn integer_in(s: Seq<char>) -> Option<i64> {
    match whole_number(s) {
        Some(n) => if i64::MIN <= n <= i64::MAX {
            Some(n as i64)
        } else {
            None
        },
        None => None,
    }
}

/// Whether a number is one of the horizons.
pub open spec fn is_horizon(h: i64) -> bool {
    h == 60 || h == 300 || h == 900 || h == 3600
}

/// The latest time in milliseconds that the calendar has.
pub const LAST_MILLISECOND: i64 = 8_210_266_876_799_999;

/// A time that a text spells: not before the epoch, and within the calendar.
pub open spec fn time_in(s: Seq<char>) -> Option<i64> {
    match integer_in(s) {
        Some(t) => if 0 <= t <= LAST_MILLISECOND {
            Some(t)
        } else {
            None
        },
        None => None,
    }
}

/// What a query says, or what is wrong with it. The first fault counts, in this order.
pub open spec fn filters_in(query: Pairs, current_config: Seq<char>) -> Result<
    FiltersView,
    Seq<char>,
> {
    let exchange = selected(query, "exchange"@);
    let symbol = match selected(query, "symbol"@) {
        Some(s) => Some(raised(trimmed(s))),
        None => None,
    };
    let strategy = selected(query, "strategy"@);
    let horizon = selected(query, "horizon"@);
    let status = match selected(query, "status"@) {
        Some(s) => Some(raised(s)),
        None => None,
    };
    let config = match selected(query, "config"@) {
        Some(s) => if s == "current"@ {
            Some(current_config)
        } else {
            Some(s)
        },
        None => None,
    };
    let from = selected(query, "from_ms"@);
    let to = selected(query, "to_ms"@);
    if unknown_name(query) is Some {
        Err("Unknown export filter: "@ + unknown_name(query)->0)
    } else if exchange is Some && exchange_named(exchange->0) is None {
        Err("Exchange must be all, binance or bybit"@)
    } else if symbol is Some && !is_symbol(symbol->0) {
        Err("Invalid symbol"@)
    } else if strategy is Some && !is_identifier(strategy->0) {
        Err("Invalid strategy"@)
    } else if horizon is Some && integer_in(horizon->0) is None {
        Err("Invalid horizon"@)
    } else if horizon is Some && !is_horizon(integer_in(horizon->0)->0) {
        Err("Horizon must be all, 60, 300, 900 or 3600 seconds"@)
    } else if status is Some && !is_status(status->0) {
        Err("Invalid position status"@)
    } else if config is Some && !is_identifier(config->0) {
        Err("Invalid configuration ID"@)
    } else if from is Some && time_in(from->0) is None {
        Err("from_ms"@ + " must be a non-negative UTC timestamp in milliseconds"@)
    } else if to is Some && time_in(to->0) is None {
        Err("to_ms"@ + " must be a non-negative UTC timestamp in milliseconds"@)
    } else if from is Some && to is Some && time_in(from->0)->0 >= time_in(to->0)->0 {
        Err("Start must be earlier than end (end is exclusive)"@)
    } else {
        Ok(
            FiltersView {
                exchange: if exchange is Some {
                    exchange_named(exchange->0)
                } else {
                    None
                },
                symbol,
                strategy,
                horizon_secs: if horizon is Some {
                    integer_in(horizon->0)
                } else {
                    None
                },
                status,
                config_id: config,
                from_ms: if from is Some {
                    time_in(from->0)
                } else {
                    None
                },
                to_ms: if to is Some {
                    time_in(to->0)
                } else {
                    None
                },
            },
        )
    }
}

/// Whether a query asks for something under a name.
pub open spec fn is_asked(query: Pairs, name: Seq<char>, text: Seq<char>) -> bool {
    named(query, name) == Some(text) && text.len() > 0 && text != "all"@
}

/// Whether a query has names of filters only.
pub open spec fn names_are_known(query: Pairs) -> bool {
    forall|i: int|
        0 <= i < query.len() ==> {
            let name = (#[trigger] query[i]).0;
            ||| name == "format"@
            ||| name == "exchange"@
            ||| name == "symbol"@
            ||| name == "strategy"@
            ||| name == "horizon"@
            ||| name == "status"@
            ||| name == "config"@
            ||| name == "from_ms"@
            ||| name == "to_ms"@
        }
}

proof fn lemma_unknown_name(query: Pairs)
    ensures
        unknown_name(query) is None <==> names_are_known(query),
    decreases query.len(),
{
    if query.len() > 0 {
        let rest = query.drop_first();
        lemma_unknown_name(rest);
        if names_are_known(query) {
            assert forall|i: int| 0 <= i < rest.len() implies {
                let name = (#[trigger] rest[i]).0;
                is_filter_name(name)
            } by {
                assert(rest[i] == query[i + 1]);
            }
            assert(is_filter_name(query[0].0));
        } else if is_filter_name(query[0].0) && unknown_name(rest) is None {
            assert forall|i: int| 0 <= i < query.len() implies is_filter_name(
                (#[trigger] query[i]).0,
            ) by {
                if i > 0 {
                    assert(query[i] == rest[i - 1]);
                }
            }
        }
    }
}

/// No filter is ignored: where a query is taken, every name in it is known, every filter that is
/// asked for is set to what its own text says, and no other is set.
pub proof fn lemma_no_filter_is_ignored(query: Pairs, current_config: Seq<char>, text: Seq<char>)
    ensures
        filters_in(query, current_config) matches Ok(f) ==> {
            &&& names_are_known(query)
            &&& is_asked(query, "exchange"@, text) ==> f.exchange is Some && text::lowered(text)
                == f.exchange->0.spec_name()
            &&& is_asked(query, "symbol"@, text) ==> {
                &&& f.symbol == Some(raised(trimmed(text)))
                &&& 5 <= f.symbol->0.len() <= 24
            }
            &&& is_asked(query, "strategy"@, text) ==> f.strategy == Some(text) && text.len()
                <= 100
            &&& is_asked(query, "horizon"@, text) ==> {
                &&& f.horizon_secs is Some
                &&& f.horizon_secs == integer_in(text)
                &&& [60i64, 300, 900, 3600]@.contains(f.horizon_secs->0)
            }
            &&& is_asked(query, "status"@, text) ==> {
                &&& f.status == Some(raised(text))
                &&& ["OPEN"@, "WIN"@, "LOSS"@, "TIMEOUT"@, "DATA_GAP"@]@.contains(f.status->0)
            }
            &&& is_asked(query, "config"@, text) ==> f.config_id == Some(
                if text == "current"@ {
                    current_config
                } else {
                    text
                },
            )
            &&& is_asked(query, "from_ms"@, text) ==> {
                &&& f.from_ms is Some
                &&& f.from_ms == integer_in(text)
                &&& f.from_ms->0 >= 0
            }
            &&& is_asked(query, "to_ms"@, text) ==> {
                &&& f.to_ms is Some
                &&& f.to_ms == integer_in(text)
                &&& f.to_ms->0 >= 0
            }
            &&& f.from_ms is Some && f.to_ms is Some ==> f.from_ms->0 < f.to_ms->0
            &&& f.exchange is Some ==> exists|t: Seq<char>| is_asked(query, "exchange"@, t)
            &&& f.symbol is Some ==> exists|t: Seq<char>| is_asked(query, "symbol"@, t)
            &&& f.strategy is Some ==> exists|t: Seq<char>| is_asked(query, "strategy"@, t)
            &&& f.horizon_secs is Some ==> exists|t: Seq<char>| is_asked(query, "horizon"@, t)
            &&& f.status is Some ==> exists|t: Seq<char>| is_asked(query, "status"@, t)
            &&& f.config_id is Some ==> exists|t: Seq<char>| is_asked(query, "config"@, t)
            &&& f.from_ms is Some ==> exists|t: Seq<char>| is_asked(query, "from_ms"@, t)
            &&& f.to_ms is Some ==> exists|t: Seq<char>| is_asked(query, "to_ms"@, t)
        },
{
    lemma_unknown_name(query);
    if let Ok(f) = filters_in(query, current_config) {
        let horizons = [60i64, 300, 900, 3600]@;
        assert(horizons[0] == 60 && horizons[1] == 300 && horizons[2] == 900 && horizons[3]
            == 3600);
        let statuses = ["OPEN"@, "WIN"@, "LOSS"@, "TIMEOUT"@, "DATA_GAP"@]@;
        assert(statuses[0] == "OPEN"@ && statuses[1] == "WIN"@ && statuses[2] == "LOSS"@
            && statuses[3] == "TIMEOUT"@ && statuses[4] == "DATA_GAP"@);
        assert(f.exchange is Some ==> is_asked(
            query,
            "exchange"@,
            named(query, "exchange"@)->0,
        ));
        assert(f.symbol is Some ==> is_asked(query, "symbol"@, named(query, "symbol"@)->0));
        assert(f.strategy is Some ==> is_asked(
            query,
            "strategy"@,
            named(query, "strategy"@)->0,
        ));
        assert(f.horizon_secs is Some ==> is_asked(
            query,
            "horizon"@,
            named(query, "horizon"@)->0,
        ));
        assert(f.status is Some ==> is_asked(query, "status"@, named(query, "status"@)->0));
        assert(f.config_id is Some ==> is_asked(query, "config"@, named(query, "config"@)->0));
        assert(f.from_ms is Some ==> is_asked(query, "from_ms"@, named(query, "from_ms"@)->0));
        assert(f.to_ms is Some ==> is_asked(query, "to_ms"@, named(query, "to_ms"@)->0));
    }
}

proof fn lemma_every_letter_fits(s: Seq<char>)
    ensures
        5 <= s.len() <= 24 && s.all(|c: char| text::is_alphanumeric(c)) ==> is_symbol(s),
        s.len() <= 100 && s.all(|c: char| text::is_alphanumeric(c) || c == '_' || c == '-')
            ==> is_identifier(s),
{
    let letter = |c: char| text::is_alphanumeric(c);
    let sign = |c: char| text::is_alphanumeric(c) || c == '_' || c == '-';
    if s.all(letter) {
        assert forall|i: int| 0 <= i < s.len() implies text::is_alphanumeric(#[trigger] s[i]) by {
            assert(letter(s[i]));
        }
    }
    if s.all(sign) {
        assert forall|i: int| 0 <= i < s.len() implies text::is_alphanumeric(#[trigger] s[i])
            || s[i] == '_' || s[i] == '-' by {
            assert(sign(s[i]));
        }
    }
}

/// A query is taken where all its names are known and what it asks for can be had: one of the two
/// exchanges, a symbol of five to 24 letters and digits, identifiers of up to a hundred letters,
/// digits, dashes and underscores, one of the four horizons, one of the five statuses, and times
/// of the calendar of which the first is the earlier one.
pub proof fn lemma_good_filters_are_taken(query: Pairs, current_config: Seq<char>)
    requires
        names_are_known(query),
        forall|t: Seq<char>| #[trigger]
            is_asked(query, "exchange"@, t) ==> text::lowered(t) == "binance"@ || text::lowered(t)
                == "bybit"@,
        forall|t: Seq<char>| #[trigger]
            is_asked(query, "symbol"@, t) ==> 5 <= raised(trimmed(t)).len() <= 24 && raised(
                trimmed(t),
            ).all(|c: char| text::is_alphanumeric(c)),
        forall|t: Seq<char>| #[trigger]
            is_asked(query, "strategy"@, t) ==> t.len() <= 100 && t.all(
                |c: char| text::is_alphanumeric(c) || c == '_' || c == '-',
            ),
        forall|t: Seq<char>| #[trigger]
            is_asked(query, "horizon"@, t) ==> integer_in(t) == Some(60i64) || integer_in(t)
                == Some(300i64) || integer_in(t) == Some(900i64) || integer_in(t) == Some(3600i64),
        forall|t: Seq<char>| #[trigger]
            is_asked(query, "status"@, t) ==> raised(t) == "OPEN"@ || raised(t) == "WIN"@
                || raised(t) == "LOSS"@ || raised(t) == "TIMEOUT"@ || raised(t) == "DATA_GAP"@,
        forall|t: Seq<char>| #[trigger]
            is_asked(query, "config"@, t) ==> t != "current"@ && t.len() <= 100 && t.all(
                |c: char| text::is_alphanumeric(c) || c == '_' || c == '-',
            ),
        forall|t: Seq<char>| #[trigger]
            is_asked(query, "from_ms"@, t) ==> integer_in(t) is Some && 0 <= integer_in(t)->0
                <= 8_210_266_876_799_999,
        forall|t: Seq<char>| #[trigger]
            is_asked(query, "to_ms"@, t) ==> integer_in(t) is Some && 0 <= integer_in(t)->0
                <= 8_210_266_876_799_999,
        forall|s: Seq<char>, t: Seq<char>| #[trigger]
            is_asked(query, "from_ms"@, s) && #[trigger] is_asked(query, "to_ms"@, t)
                ==> integer_in(s)->0 < integer_in(t)->0,
    ensures
        filters_in(query, current_config) is Ok,
{
    lemma_unknown_name(query);
    let asked = |name: Seq<char>| named(query, name)->0;
    lemma_every_letter_fits(raised(trimmed(asked("symbol"@))));
    lemma_every_letter_fits(asked("strategy"@));
    lemma_every_letter_fits(asked("config"@));
    assert(selected(query, "exchange"@) is Some ==> is_asked(
        query,
        "exchange"@,
        asked("exchange"@),
    ));
    assert(selected(query, "symbol"@) is Some ==> is_asked(query, "symbol"@, asked("symbol"@)));
    assert(selected(query, "strategy"@) is Some ==> is_asked(
        query,
        "strategy"@,
        asked("strategy"@),
    ));
    assert(selected(query, "horizon"@) is Some ==> is_asked(
        query,
        "horizon"@,
        asked("horizon"@),
    ));
    assert(selected(query, "status"@) is Some ==> is_asked(query, "status"@, asked("status"@)));
    assert(selected(query, "config"@) is Some ==> is_asked(query, "config"@, asked("config"@)));
    assert(selected(query, "from_ms"@) is Some ==> is_asked(
        query,
        "from_ms"@,
        asked("from_ms"@),
    ));
    assert(selected(query, "to_ms"@) is Some ==> is_asked(query, "to_ms"@, asked("to_ms"@)));
}

/// `chrono::DateTime::from_timestamp_millis(..).is_some()`: whether the calendar of `chrono`,
/// which ends with the year 262142, has that time. Claimed for times from the epoch on.
#[verifier::external_body]
fn in_calendar(millis: i64) -> (r: bool)
    requires
        millis >= 0,
    ensures
        r == (millis <= LAST_MILLISECOND),
{
    chrono::DateTime::from_timestamp_millis(millis).is_some()
}

/// The first name of a query that is none of a filter.
fn find_unknown(query: &Vec<(String, String)>) -> (r: Option<&String>)
    ensures
        match r {
            Some(name) => unknown_name(setting_views(query@)) == Some(name@),
            None => unknown_name(setting_views(query@)) is None,
        },
{
    let ghost all = setting_views(query@);
    assert(all.skip(0) =~= all);
    for n in 0..query.len()
        invariant
            all == setting_views(query@),
            unknown_name(all.skip(n as int)) == unknown_name(all),
    {
        let name = query[n].0.as_str();
        assert(all.skip(n as int)[0] == all[n as int]);
        let known = text::same(name, "format") || text::same(name, "exchange") || text::same(
            name,
            "symbol",
        ) || text::same(name, "strategy") || text::same(name, "horizon") || text::same(
            name,
            "status",
        ) || text::same(name, "config") || text::same(name, "from_ms") || text::same(
            name,
            "to_ms",
        );
        if !known {
            return Some(&query[n].0);
        }
        assert(all.skip(n as int).drop_first() =~= all.skip(n + 1));
    }
    None
}

/// What a query selects under a name.
fn select(query: &Vec<(String, String)>, name: &str) -> (r: Option<String>)
    ensures
        optional(r) == selected(setting_views(query@), name@),
{
    match find_named(query, name) {
        Some(found) => if found.as_str().is_empty() || text::same(found.as_str(), "all") {
            None
        } else {
            Some(found.clone())
        },
        None => None,
    }
}

/// Whether a text can be a symbol.
pub fn fits_symbol(s: &str) -> (r: bool)
    ensures
        r == is_symbol(s@),
{
    let v = text::letters(s);
    if v.len() < 5 || v.len() > 24 {
        return false;
    }
    for n in 0..v.len()
        invariant
            v@ == s@,
            forall|i: int| 0 <= i < n ==> text::is_alphanumeric(#[trigger] s@[i]),
    {
        if !text::is_alphanumeric(v[n]) {
            assert(!text::is_alphanumeric(s@[n as int]));
            return false;
        }
    }
    true
}

/// Whether a text can be an identifier.
fn fits_identifier(s: &str) -> (r: bool)
    ensures
        r == is_identifier(s@),
{
    let v = text::letters(s);
    if v.len() > 100 {
        return false;
    }
    for n in 0..v.len()
        invariant
            v@ == s@,
            forall|i: int|
                0 <= i < n ==> text::is_alphanumeric(#[trigger] s@[i]) || s@[i] == '_' || s@[i]
                    == '-',
    {
        let c = v[n];
        if !text::is_alphanumeric(c) && c != '_' && c != '-' {
            assert(!(text::is_alphanumeric(s@[n as int]) || s@[n as int] == '_' || s@[n as int]
                == '-'));
            return false;
        }
    }
    true
}

/// A time that a text spells.
fn parse_time(s: &str) -> (r: Option<i64>)
    ensures
        r == time_in(s@),
{
    match text::parse_int(s) {
        Some(t) => if t >= 0 && in_calendar(t) {
            Some(t)
        } else {
            None
        },
        None => None,
    }
}

impl ExportFilters {
    /// Reads the filters of a query, whose names are unique. A filter that is not known, or whose
    /// text cannot be taken, is an error and never ignored.
    pub fn parse(query: &Vec<(String, String)>, current_config: &str) -> (r: Result<
        ExportFilters,
        String,
    >)
        ensures
            match r {
                Ok(filters) => filters_in(setting_views(query@), current_config@) == Ok::<
                    FiltersView,
                    Seq<char>,
                >(filters@),
                Err(message) => filters_in(setting_views(query@), current_config@) == Err::<
                    FiltersView,
                    Seq<char>,
                >(message@),
            },
    {
        let ghost q = setting_views(query@);
        if let Some(name) = find_unknown(query) {
            return Err("Unknown export filter: ".to_owned().concat(name.as_str()));
        }
        let exchange = match select(query, "exchange") {
            Some(s) => match Exchange::from_str(s.as_str()) {
                Ok(exchange) => {
                    proof {
                        crate::model::lemma_names_differ();
                    }
                    Some(exchange)
                },
                Err(_) => {
                    return Err("Exchange must be all, binance or bybit".to_owned());
                },
            },
            None => None,
        };
        let symbol = match select(query, "symbol") {
            Some(s) => {
                let symbol = text::upper(text::trim(s.as_str()).as_str());
                if !fits_symbol(symbol.as_str()) {
                    return Err("Invalid symbol".to_owned());
                }
                Some(symbol)
            },
            None => None,
        };
        let strategy = match select(query, "strategy") {
            Some(s) => {
                if !fits_identifier(s.as_str()) {
                    return Err("Invalid strategy".to_owned());
                }
                Some(s)
            },
            None => None,
        };
        let horizon_secs = match select(query, "horizon") {
            Some(s) => match text::parse_int(s.as_str()) {
                Some(h) => {
                    if h != 60 && h != 300 && h != 900 && h != 3600 {
                        return Err(
                            "Horizon must be all, 60, 300, 900 or 3600 seconds".to_owned(),
                        );
                    }
                    Some(h)
                },
                None => {
                    return Err("Invalid horizon".to_owned());
                },
            },
            None => None,
        };
        let status = match select(query, "status") {
            Some(s) => {
                let status = text::upper(s.as_str());
                let name = status.as_str();
                if !(text::same(name, "OPEN") || text::same(name, "WIN") || text::same(
                    name,
                    "LOSS",
                ) || text::same(name, "TIMEOUT") || text::same(name, "DATA_GAP")) {
                    return Err("Invalid position status".to_owned());
                }
                Some(status)
            },
            None => None,
        };
        let config_id = match select(query, "config") {
            Some(s) => {
                let id = if text::same(s.as_str(), "current") {
                    current_config.to_owned()
                } else {
                    s
                };
                if !fits_identifier(id.as_str()) {
                    return Err("Invalid configuration ID".to_owned());
                }
                Some(id)
            },
            None => None,
        };
        let from_ms = match select(query, "from_ms") {
            Some(s) => match parse_time(s.as_str()) {
                Some(t) => Some(t),
                None => {
                    return Err(
                        "from_ms".to_owned().concat(
                            " must be a non-negative UTC timestamp in milliseconds",
                        ),
                    );
                },
            },
            None => None,
        };
        let to_ms = match select(query, "to_ms") {
            Some(s) => match parse_time(s.as_str()) {
                Some(t) => Some(t),
                None => {
                    return Err(
                        "to_ms".to_owned().concat(
                            " must be a non-negative UTC timestamp in milliseconds",
                        ),
                    );
                },
            },
            None => None,
        };
        if let (Some(from), Some(to)) = (from_ms, to_ms) {
            if from >= to {
                return Err("Start must be earlier than end (end is exclusive)".to_owned());
            }
        }
        let filters = ExportFilters {
            exchange,
            symbol,
            strategy,
            horizon_secs,
            status,
            config_id,
            from_ms,
            to_ms,
        };
        assert(filters@ =~= filters_in(q, current_config@)->Ok_0);
        Ok(filters)
    }
}

/// Positions and their configurations, from one read of the store.
pub struct ExportSnapshot {
    pub positions: Vec<Prediction>,
    pub configurations: Vec<serde_json::Value>,
}

/// A position with what its record shows.
#[derive(Debug)]
pub struct ExportPosition {
    pub position: Prediction,
    pub diagnosis: PositionDiagnosis,
}

impl ExportPosition {
    /// A position with what its record shows.
    pub fn from(position: Prediction) -> (r: ExportPosition)
        requires
            position@.timely(),
        ensures
            r.position == position,
            r.diagnosis@ == diagnosis_of(position@),
    {
        let diagnosis = audit::diagnose(&position);
        ExportPosition { position, diagnosis }
    }

    /// Whether the diagnosis is that of the position.
    pub open spec fn consistent(self) -> bool {
        self.diagnosis@ == diagnosis_of(self.position@)
    }
}

/// How many positions ended how.
#[derive(Debug, Clone, Copy, PartialEq, Eq, Structural)]
pub struct Counts {
    pub total: usize,
    pub open: usize,
    pub closed: usize,
    pub priced_closed: usize,
    pub profitable: usize,
    pub losing: usize,
    pub breakeven: usize,
    pub unverifiable: usize,
    pub stop_losses: usize,
    pub timeout_losses: usize,
    pub other_losses: usize,
    pub fees_changed_profit_to_loss: usize,
    pub gave_back_observed_profit: usize,
    pub missing_entry_snapshot: usize,
    pub missing_execution_audit: usize,
    pub partial_execution_audit: usize,
}

/// The condition that a position ended so.
pub open spec fn ended(outcome: Seq<char>) -> spec_fn(PredictionView) -> bool {
    |p: PredictionView| diagnosis_of(p).outcome == outcome
}

/// The condition that a position is closed.
pub open spec fn is_closed() -> spec_fn(PredictionView) -> bool {
    |p: PredictionView| diagnosis_of(p).outcome != "open"@
}

/// Whether an outcome is that of a closed position with a known result.
pub open spec fn has_result(outcome: Seq<char>) -> bool {
    outcome != "open"@ && outcome != "unverifiable"@
}

/// The condition that a position is closed with a known result.
pub open spec fn is_priced() -> spec_fn(PredictionView) -> bool {
    |p: PredictionView| has_result(diagnosis_of(p).outcome)
}

/// Whether an outcome is a loss.
pub open spec fn is_loss(outcome: Seq<char>) -> bool {
    outcome == "stop_loss"@ || outcome == "timeout_loss"@ || outcome == "other_loss"@
}

/// The condition that a position lost.
pub open spec fn is_losing() -> spec_fn(PredictionView) -> bool {
    |p: PredictionView| is_loss(diagnosis_of(p).outcome)
}

/// The condition that fees turned a profit into a loss.
pub open spec fn fees_decided() -> spec_fn(PredictionView) -> bool {
    |p: PredictionView| diagnosis_of(p).fees_changed_profit_to_loss
}

/// The condition that a loss had been a profit before.
pub open spec fn gave_back() -> spec_fn(PredictionView) -> bool {
    |p: PredictionView| diagnosis_of(p).gave_back_observed_profit
}

/// The condition that the entry of a position was not recorded.
pub open spec fn entry_missing() -> spec_fn(PredictionView) -> bool {
    |p: PredictionView| diagnosis_of(p).entry_evidence == "not_recorded"@
}

/// The condition that the path of a position shows so much.
pub open spec fn path_shows(evidence: Seq<char>) -> spec_fn(PredictionView) -> bool {
    |p: PredictionView| diagnosis_of(p).path_evidence == evidence
}

/// How many positions ended how.
pub open spec fn counts_of(s: Seq<PredictionView>) -> Counts {
    Counts {
        total: s.len() as usize,
        open: tally(s, ended("open"@)) as usize,
        closed: tally(s, is_closed()) as usize,
        priced_closed: tally(s, is_priced()) as usize,
        profitable: tally(s, ended("profitable"@)) as usize,
        losing: tally(s, is_losing()) as usize,
        breakeven: tally(s, ended("breakeven"@)) as usize,
        unverifiable: tally(s, ended("unverifiable"@)) as usize,
        stop_losses: tally(s, ended("stop_loss"@)) as usize,
        timeout_losses: tally(s, ended("timeout_loss"@)) as usize,
        other_losses: tally(s, ended("other_loss"@)) as usize,
        fees_changed_profit_to_loss: tally(s, fees_decided()) as usize,
        gave_back_observed_profit: tally(s, gave_back()) as usize,
        missing_entry_snapshot: tally(s, entry_missing()) as usize,
        missing_execution_audit: tally(s, path_shows("not_recorded"@)) as usize,
        partial_execution_audit: tally(s, path_shows("partial_after_upgrade"@)) as usize,
    }
}

/// One more where a condition holds.
pub open spec fn more(n: usize, holds: bool) -> usize {
    if holds {
        (n + 1) as usize
    } else {
        n
    }
}

/// Counts with one more position.
pub open spec fn counted(c: Counts, d: DiagnosisView) -> Counts {
    Counts {
        total: more(c.total, true),
        open: more(c.open, d.outcome == "open"@),
        closed: more(c.closed, d.outcome != "open"@),
        priced_closed: more(c.priced_closed, has_result(d.outcome)),
        profitable: more(c.profitable, d.outcome == "profitable"@),
        losing: more(c.losing, is_loss(d.outcome)),
        breakeven: more(c.breakeven, d.outcome == "breakeven"@),
        unverifiable: more(c.unverifiable, d.outcome == "unverifiable"@),
        stop_losses: more(c.stop_losses, d.outcome == "stop_loss"@),
        timeout_losses: more(c.timeout_losses, d.outcome == "timeout_loss"@),
        other_losses: more(c.other_losses, d.outcome == "other_loss"@),
        fees_changed_profit_to_loss: more(
            c.fees_changed_profit_to_loss,
            d.fees_changed_profit_to_loss,
        ),
        gave_back_observed_profit: more(c.gave_back_observed_profit, d.gave_back_observed_profit),
        missing_entry_snapshot: more(
            c.missing_entry_snapshot,
            d.entry_evidence == "not_recorded"@,
        ),
        missing_execution_audit: more(
            c.missing_execution_audit,
            d.path_evidence == "not_recorded"@,
        ),
        partial_execution_audit: more(
            c.partial_execution_audit,
            d.path_evidence == "partial_after_upgrade"@,
        ),
    }
}

/// One more where a condition holds.
fn bump(n: usize, holds: bool) -> (r: usize)
    requires
        n < usize::MAX,
    ensures
        r == more(n, holds),
{
    if holds {
        n + 1
    } else {
        n
    }
}

impl Counts {
    /// Whether every count can take one more.
    pub open spec fn below(self, limit: int) -> bool {
        &&& self.total < limit
        &&& self.open < limit
        &&& self.closed < limit
        &&& self.priced_closed < limit
        &&& self.profitable < limit
        &&& self.losing < limit
        &&& self.breakeven < limit
        &&& self.unverifiable < limit
        &&& self.stop_losses < limit
        &&& self.timeout_losses < limit
        &&& self.other_losses < limit
        &&& self.fees_changed_profit_to_loss < limit
        &&& self.gave_back_observed_profit < limit
        &&& self.missing_entry_snapshot < limit
        &&& self.missing_execution_audit < limit
        &&& self.partial_execution_audit < limit
    }

    /// Counts one more position.
    pub fn add(&mut self, p: &ExportPosition)
        requires
            old(self).below(usize::MAX as int),
        ensures
            *final(self) == counted(*old(self), p.diagnosis@),
    {
        let d = &p.diagnosis;
        let open = text::same(d.outcome, "open");
        let unverifiable = text::same(d.outcome, "unverifiable");
        let stop_loss = text::same(d.outcome, "stop_loss");
        let timeout_loss = text::same(d.outcome, "timeout_loss");
        let other_loss = text::same(d.outcome, "other_loss");
        self.total = bump(self.total, true);
        self.open = bump(self.open, open);
        self.closed = bump(self.closed, !open);
        self.unverifiable = bump(self.unverifiable, unverifiable);
        self.priced_closed = bump(self.priced_closed, !open && !unverifiable);
        self.profitable = bump(self.profitable, text::same(d.outcome, "profitable"));
        self.losing = bump(self.losing, stop_loss || timeout_loss || other_loss);
        self.breakeven = bump(self.breakeven, text::same(d.outcome, "breakeven"));
        self.stop_losses = bump(self.stop_losses, stop_loss);
        self.timeout_losses = bump(self.timeout_losses, timeout_loss);
        self.other_losses = bump(self.other_losses, other_loss);
        self.fees_changed_profit_to_loss =
        bump(self.fees_changed_profit_to_loss, d.fees_changed_profit_to_loss);
        self.gave_back_observed_profit =
        bump(self.gave_back_observed_profit, d.gave_back_observed_profit);
        self.missing_entry_snapshot =
        bump(self.missing_entry_snapshot, text::same(d.entry_evidence, "not_recorded"));
        self.missing_execution_audit =
        bump(self.missing_execution_audit, text::same(d.path_evidence, "not_recorded"));
        self.partial_execution_audit =
        bump(
            self.partial_execution_audit,
            text::same(d.path_evidence, "partial_after_upgrade"),
        );
    }

    /// Nothing counted.
    pub fn none() -> (r: Counts)
        ensures
            r == counts_of(Seq::empty()),
    {
        Counts {
            total: 0,
            open: 0,
            closed: 0,
            priced_closed: 0,
            profitable: 0,
            losing: 0,
            breakeven: 0,
            unverifiable: 0,
            stop_losses: 0,
            timeout_losses: 0,
            other_losses: 0,
            fees_changed_profit_to_loss: 0,
            gave_back_observed_profit: 0,
            missing_entry_snapshot: 0,
            missing_execution_audit: 0,
            partial_execution_audit: 0,
        }
    }
}

/// Counting one more position.
pub proof fn lemma_counts_push(s: Seq<PredictionView>, p: PredictionView)
    requires
        s.len() < usize::MAX,
    ensures
        counts_of(s.push(p)) == counted(counts_of(s), diagnosis_of(p)),
        counts_of(s).below((s.len() + 1) as int),
{
    lemma_tally_push(s, p, ended("open"@));
    lemma_tally_push(s, p, is_closed());
    lemma_tally_push(s, p, is_priced());
    lemma_tally_push(s, p, ended("profitable"@));
    lemma_tally_push(s, p, is_losing());
    lemma_tally_push(s, p, ended("breakeven"@));
    lemma_tally_push(s, p, ended("unverifiable"@));
    lemma_tally_push(s, p, ended("stop_loss"@));
    lemma_tally_push(s, p, ended("timeout_loss"@));
    lemma_tally_push(s, p, ended("other_loss"@));
    lemma_tally_push(s, p, fees_decided());
    lemma_tally_push(s, p, gave_back());
    lemma_tally_push(s, p, entry_missing());
    lemma_tally_push(s, p, path_shows("not_recorded"@));
    lemma_tally_push(s, p, path_shows("partial_after_upgrade"@));
}

/// The names of outcomes differ.
proof fn lemma_outcomes_differ()
    ensures
        "open"@ != "unverifiable"@,
        "open"@ != "profitable"@,
        "open"@ != "breakeven"@,
        "open"@ != "stop_loss"@,
        "open"@ != "timeout_loss"@,
        "open"@ != "other_loss"@,
        "unverifiable"@ != "profitable"@,
        "unverifiable"@ != "breakeven"@,
        "unverifiable"@ != "stop_loss"@,
        "unverifiable"@ != "timeout_loss"@,
        "unverifiable"@ != "other_loss"@,
        "profitable"@ != "breakeven"@,
        "profitable"@ != "stop_loss"@,
        "profitable"@ != "timeout_loss"@,
        "profitable"@ != "other_loss"@,
        "breakeven"@ != "stop_loss"@,
        "breakeven"@ != "timeout_loss"@,
        "breakeven"@ != "other_loss"@,
        "stop_loss"@ != "timeout_loss"@,
        "stop_loss"@ != "other_loss"@,
        "timeout_loss"@ != "other_loss"@,
{
    reveal_strlit("open");
    reveal_strlit("unverifiable");
    reveal_strlit("profitable");
    reveal_strlit("breakeven");
    reveal_strlit("stop_loss");
    reveal_strlit("timeout_loss");
    reveal_strlit("other_loss");
    assert("open"@.len() == 4);
    assert("unverifiable"@.len() == 12 && "unverifiable"@[0] == 'u');
    assert("profitable"@.len() == 10 && "profitable"@[0] == 'p');
    assert("breakeven"@.len() == 9 && "breakeven"@[0] == 'b');
    assert("stop_loss"@.len() == 9 && "stop_loss"@[0] == 's');
    assert("timeout_loss"@.len() == 12 && "timeout_loss"@[0] == 't');
    assert("other_loss"@.len() == 10 && "other_loss"@[0] == 'o');
}

/// Every position has one of the seven outcomes.
proof fn lemma_outcomes_are_all(p: PredictionView)
    ensures
        ({
            let o = diagnosis_of(p).outcome;
            ||| o == "open"@
            ||| o == "unverifiable"@
            ||| o == "profitable"@
            ||| o == "breakeven"@
            ||| is_loss(o)
        }),
{
}

proof fn lemma_tallies_partition(s: Seq<PredictionView>)
    ensures
        s.len() == tally(s, ended("open"@)) + tally(s, is_closed()),
        tally(s, is_closed()) == tally(s, is_priced()) + tally(s, ended("unverifiable"@)),
        tally(s, is_priced()) == tally(s, ended("profitable"@)) + tally(s, ended("breakeven"@))
            + tally(s, is_losing()),
        tally(s, is_losing()) == tally(s, ended("stop_loss"@)) + tally(s, ended("timeout_loss"@))
            + tally(s, ended("other_loss"@)),
        tally(s, fees_decided()) <= tally(s, is_closed()) + tally(s, ended("open"@)),
    decreases s.len(),
{
    lemma_outcomes_differ();
    if s.len() > 0 {
        lemma_outcomes_are_all(s.last());
        lemma_tallies_partition(s.drop_last());
    }
}

/// The counts account for every position, and for each once: open or closed; closed with a known
/// result or without; with a gain, a loss or neither; lost at the stop, by time or otherwise.
pub proof fn lemma_counts_account_for_all(s: Seq<PredictionView>)
    requires
        s.len() <= usize::MAX,
    ensures
        ({
            let c = counts_of(s);
            &&& c.total == c.open + c.closed
            &&& c.closed == c.priced_closed + c.unverifiable
            &&& c.priced_closed == c.profitable + c.losing + c.breakeven
            &&& c.losing == c.stop_losses + c.timeout_losses + c.other_losses
        }),
{
    lemma_tallies_partition(s);
}

/// What one more position does to the counts, by its status and its result after fees: open or
/// closed, with an unknown result, with a gain, a loss or neither, a loss by what ended it. Nothing
/// is counted twice and nothing is left out.
pub proof fn lemma_counts_follow_results(s: Seq<PredictionView>, p: PredictionView)
    requires
        s.len() < usize::MAX,
    ensures
        ({
            let a = counts_of(s);
            let b = counts_of(s.push(p));
            let open = p.status == "OPEN"@;
            let known = !open && p.status != "DATA_GAP"@ && p.pnl_bps is Some;
            let gained = known && Num::zero().lt(p.pnl_bps->0);
            let lost = known && p.pnl_bps->0.lt(Num::zero());
            &&& b.total == a.total + 1
            &&& b.open == a.open + one_if(open)
            &&& b.closed == a.closed + one_if(!open)
            &&& b.priced_closed == a.priced_closed + one_if(known)
            &&& b.unverifiable == a.unverifiable + one_if(!open && !known)
            &&& b.profitable == a.profitable + one_if(gained)
            &&& lost ==> b.losing == a.losing + 1 && b.breakeven == a.breakeven
            &&& !known || gained ==> b.losing == a.losing && b.breakeven == a.breakeven
            &&& known && p.pnl_bps->0.same(Num::zero()) ==> b.breakeven == a.breakeven + 1
                && b.losing == a.losing
            &&& lost ==> b.stop_losses == a.stop_losses + one_if(p.status == "LOSS"@)
            &&& lost ==> b.timeout_losses == a.timeout_losses + one_if(p.status == "TIMEOUT"@)
            &&& b.fees_changed_profit_to_loss == a.fees_changed_profit_to_loss + one_if(
                p.pnl_bps is Some && p.pnl_bps->0.lt(Num::zero()) && p.gross_pnl_bps is Some
                    && Num::zero().le(p.gross_pnl_bps->0),
            )
            &&& b.missing_entry_snapshot == a.missing_entry_snapshot + one_if(
                p.entry_snapshot is None,
            )
            &&& b.missing_execution_audit == a.missing_execution_audit + one_if(
                p.execution_audit is None,
            )
        }),
{
    lemma_counts_push(s, p);
    lemma_diagnosis_follows_the_result(p);
    lemma_outcome_names();
}

/// One where something holds.
pub open spec fn one_if(holds: bool) -> int {
    if holds {
        1
    } else {
        0
    }
}

proof fn lemma_outcome_names()
    ensures
        "open"@ != "unverifiable"@,
        "open"@ != "profitable"@,
        "unverifiable"@ != "profitable"@,
        "open"@ != "breakeven"@,
        "unverifiable"@ != "breakeven"@,
        "profitable"@ != "breakeven"@,
        !is_loss("open"@),
        !is_loss("unverifiable"@),
        !is_loss("profitable"@),
        !is_loss("breakeven"@),
        "stop_loss"@ != "timeout_loss"@,
        "stop_loss"@ != "other_loss"@,
        "timeout_loss"@ != "other_loss"@,
        "LOSS"@ != "TIMEOUT"@,
        "not_recorded"@ != "recorded_at_entry"@,
        "not_recorded"@ != "observed_from_entry"@,
        "not_recorded"@ != "partial_after_upgrade"@,
{
    reveal_strlit("open");
    reveal_strlit("unverifiable");
    reveal_strlit("profitable");
    reveal_strlit("breakeven");
    reveal_strlit("stop_loss");
    reveal_strlit("timeout_loss");
    reveal_strlit("other_loss");
    reveal_strlit("LOSS");
    reveal_strlit("TIMEOUT");
    reveal_strlit("not_recorded");
    reveal_strlit("recorded_at_entry");
    reveal_strlit("observed_from_entry");
    reveal_strlit("partial_after_upgrade");
    assert("open"@.len() == 4 && "unverifiable"@.len() == 12 && "profitable"@.len() == 10);
    assert("breakeven"@.len() == 9 && "stop_loss"@.len() == 9 && "timeout_loss"@.len() == 12);
    assert("other_loss"@.len() == 10);
    assert("breakeven"@[0] != "stop_loss"@[0]);
    assert("unverifiable"@[0] != "timeout_loss"@[0]);
    assert("profitable"@[0] != "other_loss"@[0]);
    assert("LOSS"@.len() == 4 && "TIMEOUT"@.len() == 7);
    assert("not_recorded"@.len() == 12 && "recorded_at_entry"@.len() == 17);
    assert("observed_from_entry"@.len() == 19 && "partial_after_upgrade"@.len() == 21);
}

} // verus!
