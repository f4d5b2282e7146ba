//! Observed evidence of how a position was executed, not a claim about why a market moved.

use crate::db::Quote;
use crate::model::{is_moment, Prediction, PredictionView};
use crate::num::Num;
use crate::paper;
use crate::text;
use vstd::prelude::*;

verus! {

/// A quote, valued as an exit of the position.
#[derive(Debug, Clone, Copy, PartialEq, Eq, Structural)]
pub struct Mark {
    pub quote: Quote,
    pub executable: bool,
    pub gross_bps: Option<Num>,
    pub net_bps: Option<Num>,
}

/// What was known when the position closed.
#[derive(Debug, Clone)]
pub struct ExitEvidence {
    pub code: String,
    pub at: i64,
    pub quote: Option<Quote>,
    pub last_valid_quote_at: i64,
    pub quote_age_ms: i64,
    pub required_base_qty: Num,
    pub available_base_qty: Option<Num>,
    pub fill_price: Option<Num>,
}

/// What exit evidence says.
#[verifier::ext_equal]
pub struct ExitView {
    pub code: Seq<char>,
    pub at: i64,
    pub quote: Option<Quote>,
    pub last_valid_quote_at: i64,
    pub quote_age_ms: i64,
    pub required_base_qty: Num,
    pub available_base_qty: Option<Num>,
    pub fill_price: Option<Num>,
}

impl View for ExitEvidence {
    type V = ExitView;

    open spec fn view(&self) -> ExitView {
        ExitView {
            code: self.code@,
            at: self.at,
            quote: self.quote,
            last_valid_quote_at: self.last_valid_quote_at,
            quote_age_ms: self.quote_age_ms,
            required_base_qty: self.required_base_qty,
            available_base_qty: self.available_base_qty,
            fill_price: self.fill_price,
        }
    }
}

/// The quotes that were seen while a position was held: the first, the last and the extremes.
#[derive(Debug, Clone)]
pub struct ExecutionAudit {
    pub schema_version: u32,
    pub complete_from_entry: bool,
    pub tracking_started_at: i64,
    pub starting_cursor_id: i64,
    pub quotes_observed: u64,
    pub executable_quotes: u64,
    pub illiquid_quotes: u64,
    pub max_observed_gap_ms: i64,
    pub first: Option<Mark>,
    pub last: Option<Mark>,
    pub best: Option<Mark>,
    pub worst: Option<Mark>,
    pub exit: Option<ExitEvidence>,
}

/// What an execution audit says.
#[verifier::ext_equal]
pub struct AuditView {
    pub schema_version: u32,
    pub complete_from_entry: bool,
    pub tracking_started_at: i64,
    pub starting_cursor_id: i64,
    pub quotes_observed: u64,
    pub executable_quotes: u64,
    pub illiquid_quotes: u64,
    pub max_observed_gap_ms: i64,
    pub first: Option<Mark>,
    pub last: Option<Mark>,
    pub best: Option<Mark>,
    pub worst: Option<Mark>,
    pub exit: Option<ExitView>,
}

impl View for ExecutionAudit {
    type V = AuditView;

    open spec fn view(&self) -> AuditView {
        AuditView {
            schema_version: self.schema_version,
            complete_from_entry: self.complete_from_entry,
            tracking_started_at: self.tracking_started_at,
            starting_cursor_id: self.starting_cursor_id,
            quotes_observed: self.quotes_observed,
            executable_quotes: self.executable_quotes,
            illiquid_quotes: self.illiquid_quotes,
            max_observed_gap_ms: self.max_observed_gap_ms,
            first: self.first,
            last: self.last,
            best: self.best,
            worst: self.worst,
            exit: match self.exit {
                Some(exit) => Some(exit@),
                None => None,
            },
        }
    }
}

impl ExecutionAudit {
    /// An audit of a position of which nothing was observed yet.
    pub open spec fn fresh(p: PredictionView, complete: bool, at: i64) -> AuditView {
        AuditView {
            schema_version: 1,
            complete_from_entry: complete,
            tracking_started_at: at,
            starting_cursor_id: p.cursor_id,
            quotes_observed: 0,
            executable_quotes: 0,
            illiquid_quotes: 0,
            max_observed_gap_ms: 0,
            first: None,
            last: None,
            best: None,
            worst: None,
            exit: None,
        }
    }

    /// An audit of a position of which nothing was observed yet.
    pub fn start(p: &Prediction, complete: bool, at: i64) -> (r: ExecutionAudit)
        ensures
            r@ == ExecutionAudit::fresh(p@, complete, at),
    {
        ExecutionAudit {
            schema_version: 1,
            complete_from_entry: complete,
            tracking_started_at: at,
            starting_cursor_id: p.cursor_id,
            quotes_observed: 0,
            executable_quotes: 0,
            illiquid_quotes: 0,
            max_observed_gap_ms: 0,
            first: None,
            last: None,
            best: None,
            worst: None,
            exit: None,
        }
    }
}

/// The size that closes a position, in the base asset.
pub open spec fn required_qty(p: PredictionView) -> Num {
    p.notional.over(p.entry_price)
}

/// Whether a quote shows enough size to close a position.
pub open spec fn fillable(p: PredictionView, q: Quote) -> bool {
    required_qty(p).le(q.spec_exit_qty(p.direction))
}

/// What an exit at a quote would fill at.
pub open spec fn exit_at(p: PredictionView, q: Quote) -> Num {
    paper::spec_exit_fill(p.direction, q.spec_exit_price(p.direction), p.slippage_bps)
}

/// A quote as an exit: with a result only where it could be executed.
pub open spec fn mark_of(p: PredictionView, q: Quote, continuous: bool) -> Mark {
    let executable = continuous && q.spec_valid() && fillable(p, q);
    Mark {
        quote: q,
        executable,
        gross_bps: if executable {
            Some(paper::gross_bps(p.direction, p.entry_price, exit_at(p, q)))
        } else {
            None
        },
        net_bps: if executable {
            Some(paper::net_bps(p.direction, p.entry_price, exit_at(p, q), p.fee_bps))
        } else {
            None
        },
    }
}

/// The time from one moment to a later one; zero to an earlier one.
pub open spec fn span(from: i64, to: i64) -> int {
    if to > from {
        to - from
    } else {
        0
    }
}

/// The result that a mark shows.
pub open spec fn mark_net(mark: Option<Mark>) -> Option<Num> {
    match mark {
        Some(m) => m.net_bps,
        None => None,
    }
}

/// An audit with one more quote.
pub open spec fn traced(a: AuditView, mark: Mark, gap: int) -> AuditView {
    AuditView {
        quotes_observed: (a.quotes_observed + 1) as u64,
        executable_quotes: if mark.executable {
            (a.executable_quotes + 1) as u64
        } else {
            a.executable_quotes
        },
        max_observed_gap_ms: if gap > a.max_observed_gap_ms {
            gap as i64
        } else {
            a.max_observed_gap_ms
        },
        first: if a.first is Some {
            a.first
        } else {
            Some(mark)
        },
        last: Some(mark),
        best: if mark.net_bps is Some && (mark_net(a.best) is None || mark_net(a.best)->0.lt(
            mark.net_bps->0,
        )) {
            Some(mark)
        } else {
            a.best
        },
        worst: if mark.net_bps is Some && (mark_net(a.worst) is None || mark.net_bps->0.lt(
            mark_net(a.worst)->0,
        )) {
            Some(mark)
        } else {
            a.worst
        },
        ..a
    }
}

/// A position after a quote was observed, before its cursor moves.
pub open spec fn observed(p: PredictionView, q: Quote, continuous: bool) -> PredictionView {
    let a = p.execution_audit->0;
    let t = traced(a, mark_of(p, q, continuous), span(p.last_quote_ts, q.ts));
    PredictionView {
        execution_audit: Some(
            AuditView {
                illiquid_quotes: if q.spec_valid() && !fillable(p, q) {
                    (a.illiquid_quotes + 1) as u64
                } else {
                    a.illiquid_quotes
                },
                ..t
            },
        ),
        ..p
    }
}

/// The best and the worst mark of an audit bound every mark that it was told of, and a further
/// quote only widens them.
pub proof fn lemma_extremes_bound_marks(a: AuditView, mark: Mark, gap: int)
    requires
        mark.net_bps is Some,
        !mark.net_bps->0.is_nan(),
        mark_net(a.best) is Some ==> !mark_net(a.best)->0.is_nan(),
        mark_net(a.worst) is Some ==> !mark_net(a.worst)->0.is_nan(),
    ensures
        ({
            let t = traced(a, mark, gap);
            &&& mark_net(t.best) is Some
            &&& mark_net(t.worst) is Some
            &&& mark.net_bps->0.le(mark_net(t.best)->0)
            &&& mark_net(t.worst)->0.le(mark.net_bps->0)
            &&& mark_net(a.best) is Some ==> mark_net(a.best)->0.le(mark_net(t.best)->0)
            &&& mark_net(a.worst) is Some ==> mark_net(t.worst)->0.le(mark_net(a.worst)->0)
        }),
{
}

/// Every quote is counted once, and as executable or as too thin at most: the counters of an audit
/// never claim more quotes than were observed.
pub proof fn lemma_counters_agree(p: PredictionView, q: Quote, continuous: bool)
    requires
        p.execution_audit is Some,
        countable(p.execution_audit, 1),
        p.execution_audit->0.executable_quotes + p.execution_audit->0.illiquid_quotes
            <= p.execution_audit->0.quotes_observed,
    ensures
        ({
            let a = p.execution_audit->0;
            let b = observed(p, q, continuous).execution_audit->0;
            &&& b.quotes_observed == a.quotes_observed + 1
            &&& b.executable_quotes + b.illiquid_quotes <= b.quotes_observed
        }),
{
}

/// Whether an audit can count that many more quotes.
pub open spec fn countable(a: Option<AuditView>, more: int) -> bool {
    a is Some ==> {
        &&& a->0.quotes_observed + more <= u64::MAX
        &&& a->0.executable_quotes + more <= u64::MAX
        &&& a->0.illiquid_quotes + more <= u64::MAX
    }
}

/// Adds a quote to the audit of a position. Call before the cursor and the time of the last quote
/// move. A mark that could not be filled has no result. Only the first, the last and the extreme
/// quotes are kept: this is no archive of the path.
pub fn observe(p: &mut Prediction, q: &Quote, continuous: bool)
    requires
        old(p)@.execution_audit is Some,
        countable(old(p)@.execution_audit, 1),
        is_moment(old(p).last_quote_ts),
        is_moment(q.ts),
    ensures
        final(p)@ == observed(old(p)@, *q, continuous),
{
    let ghost before = p@;
    let liquid = q.valid() && p.notional.over(p.entry_price).le(q.exit_qty(p.direction.as_str()));
    let executable = continuous && liquid;
    let fill = paper::exit_fill(
        p.direction.as_str(),
        q.exit_price(p.direction.as_str()),
        p.slippage_bps,
    );
    let (gross, net) = paper::pnl(p.direction.as_str(), p.entry_price, fill, p.fee_bps);
    let mark = Mark {
        quote: *q,
        executable,
        gross_bps: if executable {
            Some(gross)
        } else {
            None
        },
        net_bps: if executable {
            Some(net)
        } else {
            None
        },
    };
    let gap: i64 = if q.ts > p.last_quote_ts {
        q.ts - p.last_quote_ts
    } else {
        0
    };
    let mut trace = p.execution_audit.take().unwrap();
    trace.quotes_observed = trace.quotes_observed + 1;
    if executable {
        trace.executable_quotes = trace.executable_quotes + 1;
    }
    if q.valid() && !liquid {
        trace.illiquid_quotes = trace.illiquid_quotes + 1;
    }
    if gap > trace.max_observed_gap_ms {
        trace.max_observed_gap_ms = gap;
    }
    if trace.first.is_none() {
        trace.first = Some(mark);
    }
    trace.last = Some(mark);
    if executable {
        let best = net_of(&trace.best);
        let higher = match best {
            Some(v) => v.lt(net),
            None => true,
        };
        if higher {
            trace.best = Some(mark);
        }
        let worst = net_of(&trace.worst);
        let lower = match worst {
            Some(v) => net.lt(v),
            None => true,
        };
        if lower {
            trace.worst = Some(mark);
        }
    }
    p.execution_audit = Some(trace);
    assert(mark == mark_of(before, *q, continuous));
    assert(p@ =~= observed(before, *q, continuous));
}

/// The result that a mark shows.
fn net_of(mark: &Option<Mark>) -> (r: Option<Num>)
    ensures
        r == mark_net(*mark),
{
    match mark {
        Some(m) => m.net_bps,
        None => None,
    }
}

/// The evidence of an exit: the quote that caused it, or else the last one observed.
pub open spec fn exit_evidence(
    p: PredictionView,
    code: Seq<char>,
    at: i64,
    quote: Option<Quote>,
) -> ExitView {
    let a = p.execution_audit->0;
    let seen = if quote is Some {
        quote
    } else {
        match a.last {
            Some(mark) => Some(mark.quote),
            None => None,
        }
    };
    ExitView {
        code,
        at,
        quote: seen,
        last_valid_quote_at: p.last_quote_ts,
        quote_age_ms: span(p.last_quote_ts, at) as i64,
        required_base_qty: required_qty(p),
        available_base_qty: match seen {
            Some(q) => Some(q.spec_exit_qty(p.direction)),
            None => None,
        },
        fill_price: p.exit_price,
    }
}

/// A position with the evidence of its exit; one without audit stays as it is.
pub open spec fn exit_recorded(
    p: PredictionView,
    code: Seq<char>,
    at: i64,
    quote: Option<Quote>,
) -> PredictionView {
    match p.execution_audit {
        Some(a) => PredictionView {
            execution_audit: Some(
                AuditView {
                    max_observed_gap_ms: if span(p.last_quote_ts, at) > a.max_observed_gap_ms {
                        span(p.last_quote_ts, at) as i64
                    } else {
                        a.max_observed_gap_ms
                    },
                    exit: Some(exit_evidence(p, code, at, quote)),
                    ..a
                },
            ),
            ..p
        },
        None => p,
    }
}

/// Adds the evidence of an exit to the audit of a position, if it has one.
pub fn record_exit(p: &mut Prediction, code: &str, at: i64, quote: Option<&Quote>)
    requires
        is_moment(old(p).last_quote_ts),
        -0x6000_0000_0000_0000 < at < 0x6000_0000_0000_0000,
    ensures
        final(p)@ == exit_recorded(
            old(p)@,
            code@,
            at,
            match quote {
                Some(q) => Some(*q),
                None => None,
            },
        ),
{
    let ghost before = p@;
    if p.execution_audit.is_none() {
        return;
    }
    let mut trace = p.execution_audit.take().unwrap();
    let seen: Option<Quote> = match quote {
        Some(q) => Some(*q),
        None => match &trace.last {
            Some(mark) => Some(mark.quote),
            None => None,
        },
    };
    let age: i64 = if at > p.last_quote_ts {
        at - p.last_quote_ts
    } else {
        0
    };
    if age > trace.max_observed_gap_ms {
        trace.max_observed_gap_ms = age;
    }
    trace.exit =
    Some(
        ExitEvidence {
            code: code.to_owned(),
            at,
            quote: seen,
            last_valid_quote_at: p.last_quote_ts,
            quote_age_ms: age,
            required_base_qty: p.notional.over(p.entry_price),
            available_base_qty: match seen {
                Some(q) => Some(q.exit_qty(p.direction.as_str())),
                None => None,
            },
            fill_price: p.exit_price,
        },
    );
    p.execution_audit = Some(trace);
    assert(p@ =~= exit_recorded(
        before,
        code@,
        at,
        match quote {
            Some(q) => Some(*q),
            None => None,
        },
    ));
}

/// What the record of a position shows of its entry, path and exit.
#[derive(Debug, Clone)]
pub struct PositionDiagnosis {
    pub entry_evidence: &'static str,
    pub path_evidence: &'static str,
    pub exit_reason: String,
    pub exit_reason_source: &'static str,
    pub outcome: &'static str,
    pub fees_changed_profit_to_loss: bool,
    pub fees_paid_bps: Option<Num>,
    pub net_pnl_quote: Option<Num>,
    pub held_ms: Option<i64>,
    pub target_net_bps: Option<Num>,
    pub stop_net_bps_at_level: Option<Num>,
    pub planned_net_reward_risk: Option<Num>,
    pub best_observed_net_bps: Option<Num>,
    pub worst_observed_net_bps: Option<Num>,
    pub gave_back_observed_profit: bool,
}

/// What a diagnosis says.
#[verifier::ext_equal]
pub struct DiagnosisView {
    pub entry_evidence: Seq<char>,
    pub path_evidence: Seq<char>,
    pub exit_reason: Seq<char>,
    pub exit_reason_source: Seq<char>,
    pub outcome: Seq<char>,
    pub fees_changed_profit_to_loss: bool,
    pub fees_paid_bps: Option<Num>,
    pub net_pnl_quote: Option<Num>,
    pub held_ms: Option<i64>,
    pub target_net_bps: Option<Num>,
    pub stop_net_bps_at_level: Option<Num>,
    pub planned_net_reward_risk: Option<Num>,
    pub best_observed_net_bps: Option<Num>,
    pub worst_observed_net_bps: Option<Num>,
    pub gave_back_observed_profit: bool,
}

impl View for PositionDiagnosis {
    type V = DiagnosisView;

    open spec fn view(&self) -> DiagnosisView {
        DiagnosisView {
            entry_evidence: self.entry_evidence@,
            path_evidence: self.path_evidence@,
            exit_reason: self.exit_reason@,
            exit_reason_source: self.exit_reason_source@,
            outcome: self.outcome@,
            fees_changed_profit_to_loss: self.fees_changed_profit_to_loss,
            fees_paid_bps: self.fees_paid_bps,
            net_pnl_quote: self.net_pnl_quote,
            held_ms: self.held_ms,
            target_net_bps: self.target_net_bps,
            stop_net_bps_at_level: self.stop_net_bps_at_level,
            planned_net_reward_risk: self.planned_net_reward_risk,
            best_observed_net_bps: self.best_observed_net_bps,
            worst_observed_net_bps: self.worst_observed_net_bps,
            gave_back_observed_profit: self.gave_back_observed_profit,
        }
    }
}

/// How a position ended, by its status and result.
pub open spec fn outcome_of(p: PredictionView) -> Seq<char> {
    if p.status == "OPEN"@ {
        "open"@
    } else if p.status == "DATA_GAP"@ || p.pnl_bps is None {
        "unverifiable"@
    } else if Num::zero().lt(p.pnl_bps->0) {
        "profitable"@
    } else if p.pnl_bps->0.same(Num::zero()) {
        "breakeven"@
    } else if p.status == "LOSS"@ {
        "stop_loss"@
    } else if p.status == "TIMEOUT"@ {
        "timeout_loss"@
    } else {
        "other_loss"@
    }
}

/// What a status alone says of the exit.
pub open spec fn inferred_exit(status: Seq<char>) -> Seq<char> {
    if status == "OPEN"@ {
        "still_open"@
    } else if status == "WIN"@ {
        "target_hit_inferred"@
    } else if status == "LOSS"@ {
        "stop_hit_inferred"@
    } else if status == "TIMEOUT"@ {
        "horizon_timeout_inferred"@
    } else if status == "DATA_GAP"@ {
        "unspecified_data_or_fill_gap"@
    } else {
        "unknown"@
    }
}

/// The evidence of the exit, where it was recorded.
pub open spec fn recorded_exit(p: PredictionView) -> Option<ExitView> {
    match p.execution_audit {
        Some(a) => a.exit,
        None => None,
    }
}

/// What a position would have gained at a price level, after fees.
pub open spec fn net_at(p: PredictionView, level: Num) -> Num {
    paper::net_bps(p.direction, p.entry_price, level, p.fee_bps)
}

/// What the record of a position shows.
pub open spec fn diagnosis_of(p: PredictionView) -> DiagnosisView {
    let net = p.pnl_bps;
    let lost = net is Some && net->0.lt(Num::zero());
    let best = match p.execution_audit {
        Some(a) => mark_net(a.best),
        None => None,
    };
    let planned = p.config_id != "legacy"@;
    let target = net_at(p, p.target_price);
    let stop = net_at(p, p.stop_price);
    DiagnosisView {
        entry_evidence: if p.entry_snapshot is Some {
            "recorded_at_entry"@
        } else {
            "not_recorded"@
        },
        path_evidence: match p.execution_audit {
            Some(a) => if a.complete_from_entry {
                "observed_from_entry"@
            } else {
                "partial_after_upgrade"@
            },
            None => "not_recorded"@,
        },
        exit_reason: match recorded_exit(p) {
            Some(e) => e.code,
            None => inferred_exit(p.status),
        },
        exit_reason_source: if recorded_exit(p) is Some {
            "recorded_at_exit"@
        } else {
            "status_only"@
        },
        outcome: outcome_of(p),
        fees_changed_profit_to_loss: lost && p.gross_pnl_bps is Some && Num::zero().le(
            p.gross_pnl_bps->0,
        ),
        fees_paid_bps: if p.gross_pnl_bps is Some && net is Some {
            Some(p.gross_pnl_bps->0.minus(net->0))
        } else {
            None
        },
        net_pnl_quote: if net is Some {
            Some(p.notional.times(net->0).over(Num::from_int(10_000)))
        } else {
            None
        },
        held_ms: match p.resolved_at {
            Some(at) => Some((at - p.created_at) as i64),
            None => None,
        },
        target_net_bps: if planned {
            Some(target)
        } else {
            None
        },
        stop_net_bps_at_level: if planned {
            Some(stop)
        } else {
            None
        },
        planned_net_reward_risk: if planned && stop.lt(Num::zero()) {
            Some(target.over(stop.negated()))
        } else {
            None
        },
        best_observed_net_bps: best,
        worst_observed_net_bps: match p.execution_audit {
            Some(a) => mark_net(a.worst),
            None => None,
        },
        gave_back_observed_profit: lost && best is Some && Num::zero().lt(best->0),
    }
}

/// What a status alone says of the exit.
fn infer_exit(status: &str) -> (r: &'static str)
    ensures
        r@ == inferred_exit(status@),
{
    if text::same(status, "OPEN") {
        "still_open"
    } else if text::same(status, "WIN") {
        "target_hit_inferred"
    } else if text::same(status, "LOSS") {
        "stop_hit_inferred"
    } else if text::same(status, "TIMEOUT") {
        "horizon_timeout_inferred"
    } else if text::same(status, "DATA_GAP") {
        "unspecified_data_or_fill_gap"
    } else {
        "unknown"
    }
}

/// How a position ended, by its status and result.
fn judge(p: &Prediction) -> (r: &'static str)
    ensures
        r@ == outcome_of(p@),
{
    if text::same(p.status.as_str(), "OPEN") {
        return "open";
    }
    if text::same(p.status.as_str(), "DATA_GAP") {
        return "unverifiable";
    }
    match p.pnl_bps {
        None => "unverifiable",
        Some(net) => if Num::zero().lt(net) {
            "profitable"
        } else if net.same(Num::zero()) {
            "breakeven"
        } else if text::same(p.status.as_str(), "LOSS") {
            "stop_loss"
        } else if text::same(p.status.as_str(), "TIMEOUT") {
            "timeout_loss"
        } else {
            "other_loss"
        },
    }
}

/// What the record of a position shows. What was not recorded is reported so, not made up.
pub fn diagnose(p: &Prediction) -> (r: PositionDiagnosis)
    requires
        p@.timely(),
    ensures
        r@ == diagnosis_of(p@),
{
    let net = p.pnl_bps;
    let lost = match net {
        Some(v) => v.lt(Num::zero()),
        None => false,
    };
    let (best, worst) = match &p.execution_audit {
        Some(a) => (net_of(&a.best), net_of(&a.worst)),
        None => (None, None),
    };
    let planned = !text::same(p.config_id.as_str(), "legacy");
    let (_, target) = paper::pnl(
        p.direction.as_str(),
        p.entry_price,
        p.target_price,
        p.fee_bps,
    );
    let (_, stop) = paper::pnl(p.direction.as_str(), p.entry_price, p.stop_price, p.fee_bps);
    let path_evidence = match &p.execution_audit {
        Some(a) => if a.complete_from_entry {
            "observed_from_entry"
        } else {
            "partial_after_upgrade"
        },
        None => "not_recorded",
    };
    let recorded: Option<String> = match &p.execution_audit {
        Some(a) => match &a.exit {
            Some(e) => Some(e.code.clone()),
            None => None,
        },
        None => None,
    };
    let exit_reason_source = if recorded.is_some() {
        "recorded_at_exit"
    } else {
        "status_only"
    };
    let exit_reason = match recorded {
        Some(code) => code,
        None => infer_exit(p.status.as_str()).to_owned(),
    };
    let r = PositionDiagnosis {
        entry_evidence: if p.entry_snapshot.is_some() {
            "recorded_at_entry"
        } else {
            "not_recorded"
        },
        path_evidence,
        exit_reason,
        exit_reason_source,
        outcome: judge(p),
        fees_changed_profit_to_loss: lost && (match p.gross_pnl_bps {
            Some(v) => Num::zero().le(v),
            None => false,
        }),
        fees_paid_bps: match (p.gross_pnl_bps, net) {
            (Some(gross), Some(v)) => Some(gross.minus(v)),
            _ => None,
        },
        net_pnl_quote: match net {
            Some(v) => Some(p.notional.times(v).over(Num::from_int(10_000))),
            None => None,
        },
        held_ms: match p.resolved_at {
            Some(at) => Some(at - p.created_at),
            None => None,
        },
        target_net_bps: if planned {
            Some(target)
        } else {
            None
        },
        stop_net_bps_at_level: if planned {
            Some(stop)
        } else {
            None
        },
        planned_net_reward_risk: if planned && stop.lt(Num::zero()) {
            Some(target.over(stop.negated()))
        } else {
            None
        },
        best_observed_net_bps: best,
        worst_observed_net_bps: worst,
        gave_back_observed_profit: lost && (match best {
            Some(v) => Num::zero().lt(v),
            None => false,
        }),
    };
    assert(r@ =~= diagnosis_of(p@));
    r
}

/// What a diagnosis says of a result: nothing while the position is open or its result unknown, and
/// otherwise profit, loss or neither by the sign of the result after fees, a loss by what ended it.
/// Fees turned a profit into a loss exactly where there is a loss after them and none before. A loss
/// gave back a profit exactly where one could have been taken on the way.
pub proof fn lemma_diagnosis_follows_the_result(p: PredictionView)
    ensures
        ({
            let d = diagnosis_of(p);
            let known = p.status != "OPEN"@ && p.status != "DATA_GAP"@ && p.pnl_bps is Some;
            let net = p.pnl_bps->0;
            let lost = p.pnl_bps is Some && net.lt(Num::zero());
            &&& d.outcome == "open"@ <==> p.status == "OPEN"@
            &&& d.outcome == "unverifiable"@ <==> p.status != "OPEN"@ && !known
            &&& d.outcome == "profitable"@ <==> known && Num::zero().lt(net)
            &&& d.outcome == "breakeven"@ <==> known && net.le(Num::zero()) && Num::zero().le(net)
            &&& known && lost && p.status == "LOSS"@ ==> d.outcome == "stop_loss"@
            &&& known && lost && p.status == "TIMEOUT"@ ==> d.outcome == "timeout_loss"@
            &&& known && lost && p.status != "LOSS"@ && p.status != "TIMEOUT"@ ==> d.outcome
                == "other_loss"@
            &&& d.fees_changed_profit_to_loss <==> lost && p.gross_pnl_bps is Some
                && Num::zero().le(p.gross_pnl_bps->0)
            &&& d.gave_back_observed_profit <==> lost && p.execution_audit is Some
                && p.execution_audit->0.best is Some && p.execution_audit->0.best->0.net_bps
                is Some && Num::zero().lt(p.execution_audit->0.best->0.net_bps->0)
            &&& p.gross_pnl_bps is Some && p.pnl_bps is Some ==> d.fees_paid_bps == Some(
                p.gross_pnl_bps->0.minus(net),
            )
            &&& p.pnl_bps is Some ==> d.net_pnl_quote == Some(
                p.notional.times(net).over(Num::from_int(10_000)),
            )
            &&& p.pnl_bps is None ==> d.net_pnl_quote is None && d.fees_paid_bps is None
            &&& p.resolved_at is Some ==> d.held_ms == Some(
                (p.resolved_at->0 - p.created_at) as i64,
            )
            &&& p.config_id != "legacy"@ ==> d.target_net_bps == Some(
                paper::net_bps(p.direction, p.entry_price, p.target_price, p.fee_bps),
            ) && d.stop_net_bps_at_level == Some(
                paper::net_bps(p.direction, p.entry_price, p.stop_price, p.fee_bps),
            )
            &&& p.execution_audit is Some && p.execution_audit->0.exit is Some ==> d.exit_reason
                == p.execution_audit->0.exit->0.code
        }),
{
    reveal_strlit("LOSS");
    reveal_strlit("TIMEOUT");
    assert("LOSS"@.len() == 4 && "TIMEOUT"@.len() == 7);
    reveal_strlit("open");
    reveal_strlit("unverifiable");
    reveal_strlit("profitable");
    reveal_strlit("breakeven");
    reveal_strlit("stop_loss");
    reveal_strlit("timeout_loss");
    reveal_strlit("other_loss");
    assert("open"@.len() == 4 && "unverifiable"@.len() == 12 && "profitable"@.len() == 10);
    assert("breakeven"@.len() == 9 && "stop_loss"@.len() == 9 && "timeout_loss"@.len() == 12);
    assert("other_loss"@.len() == 10);
    assert("breakeven"@[0] != "stop_loss"@[0]);
    assert("unverifiable"@[0] != "timeout_loss"@[0]);
    assert("profitable"@[0] != "other_loss"@[0]);
}

/// What is recorded of an exit: why and when, the fill, the size that was needed and the one that
/// was offered on the side on which the position is left, by the quote that caused it or else the
/// last one seen, and for how long there had been no valid quote.
pub proof fn lemma_exit_is_recorded(
    p: PredictionView,
    code: Seq<char>,
    at: i64,
    quote: Option<Quote>,
)
    requires
        p.execution_audit is Some,
    ensures
        ({
            let r = exit_recorded(p, code, at, quote);
            let a = p.execution_audit->0;
            let b = r.execution_audit->0;
            let e = b.exit->0;
            let shown = if quote is Some {
                quote
            } else if a.last is Some {
                Some(a.last->0.quote)
            } else {
                None
            };
            &&& r == (PredictionView { execution_audit: r.execution_audit, ..p })
            &&& b.exit is Some
            &&& e.code == code && e.at == at && e.quote == shown
            &&& e.fill_price == p.exit_price
            &&& e.last_valid_quote_at == p.last_quote_ts
            &&& e.required_base_qty == p.notional.over(p.entry_price)
            &&& shown is None ==> e.available_base_qty is None
            &&& shown is Some && p.direction == "LONG"@ ==> e.available_base_qty == Some(
                shown->0.bid_qty,
            )
            &&& shown is Some && p.direction != "LONG"@ ==> e.available_base_qty == Some(
                shown->0.ask_qty,
            )
            &&& at >= p.last_quote_ts ==> e.quote_age_ms == (at - p.last_quote_ts) as i64
            &&& at < p.last_quote_ts ==> e.quote_age_ms == 0
            &&& b.quotes_observed == a.quotes_observed && b.executable_quotes
                == a.executable_quotes && b.best == a.best && b.worst == a.worst && b.first
                == a.first && b.last == a.last
        }),
{
}

} // verus!
