//! From a signal to a paper position.

use super::analog::BarrierStats;
use super::feature::{spread_of, Feature};
use super::signal::{check, rule_checks, rule_of, Bound, Evaluation, Peer, RuleCheck, Signal};
use crate::audit;
use crate::audit::{observed, ExecutionAudit};
use crate::db::Quote;
use crate::model::{is_moment, views, Exchange, Prediction, PredictionView};
use crate::num::Num;
use crate::paper;
use crate::paper::ledger::{held, is_open, ref_views, tally};
use crate::paper::{of_lane, LabConfig, LaneDiagnostic};
use crate::text;
use vstd::prelude::*;

verus! {

/// Whether a lane may take a new position, before a quote is asked for.
#[derive(Debug, Clone, Copy, PartialEq, Eq, Structural)]
pub enum Gate {
    AlreadyOpen,
    Cooldown,
    NoEquity,
    TooLate,
    AskForQuote,
}

/// What became of a signal.
#[derive(Debug, Clone, Copy, PartialEq, Eq, Structural)]
pub enum EntryResult {
    Gated(Gate),
    NoQuote,
    WideSpread,
    ThinBook,
    Opened,
}

impl EntryResult {
    /// What to tell whoever watches.
    pub open spec fn spec_message(self) -> Seq<char> {
        match self {
            EntryResult::Gated(Gate::AlreadyOpen) => "Position already open"@,
            EntryResult::Gated(Gate::Cooldown) => "Cooldown after previous exit"@,
            EntryResult::Gated(Gate::NoEquity) => "Paper account has insufficient equity"@,
            EntryResult::Gated(Gate::TooLate) =>
            "Signal computation exceeded the freshness budget; waiting for next cycle"@,
            EntryResult::Gated(Gate::AskForQuote) | EntryResult::NoQuote =>
            "Waiting for a fresh, valid executable quote"@,
            EntryResult::WideSpread => "Spread widened before entry"@,
            EntryResult::ThinBook => "Insufficient visible top-book size"@,
            EntryResult::Opened => "Paper position opened"@,
        }
    }

    /// What to tell whoever watches.
    pub fn message(self) -> (r: &'static str)
        ensures
            r@ == self.spec_message(),
    {
        match self {
            EntryResult::Gated(Gate::AlreadyOpen) => "Position already open",
            EntryResult::Gated(Gate::Cooldown) => "Cooldown after previous exit",
            EntryResult::Gated(Gate::NoEquity) => "Paper account has insufficient equity",
            EntryResult::Gated(Gate::TooLate) =>
            "Signal computation exceeded the freshness budget; waiting for next cycle",
            EntryResult::Gated(Gate::AskForQuote) | EntryResult::NoQuote =>
            "Waiting for a fresh, valid executable quote",
            EntryResult::WideSpread => "Spread widened before entry",
            EntryResult::ThinBook => "Insufficient visible top-book size",
            EntryResult::Opened => "Paper position opened",
        }
    }
}

/// Whether a position closed less than the cooldown before `at`.
pub open spec fn cooling(p: PredictionView, at: i64, c: LabConfig) -> bool {
    p.resolved_at is Some && at - p.resolved_at->0 < c.cooldown_secs * 1000
}

/// Whether one of the positions is open.
pub open spec fn any_open(lane: Seq<PredictionView>) -> bool {
    exists|i: int| 0 <= i < lane.len() && is_open(#[trigger] lane[i])
}

/// Whether one of the positions closed less than the cooldown before `at`.
pub open spec fn any_cooling(lane: Seq<PredictionView>, at: i64, c: LabConfig) -> bool {
    exists|i: int| 0 <= i < lane.len() && cooling(#[trigger] lane[i], at, c)
}

/// Whether a lane may take a new position: none open, none closed lately, enough equity for the
/// notional and a margin, and the signal still young.
pub open spec fn gate_of(lane: Seq<PredictionView>, at: i64, now: i64, c: LabConfig) -> Gate {
    if any_open(lane) {
        Gate::AlreadyOpen
    } else if any_cooling(lane, at, c) {
        Gate::Cooldown
    } else if paper::stats_of(lane, c.initial_capital, c).net_pnl.plus(c.initial_capital).lt(
        c.notional.times(Num::ratio(102, 100)),
    ) {
        Gate::NoEquity
    } else if now - at > c.max_gap_ms {
        Gate::TooLate
    } else {
        Gate::AskForQuote
    }
}

proof fn lemma_none_held(lane: Seq<PredictionView>)
    requires
        !any_open(lane),
    ensures
        tally(lane, held()) == 0,
    decreases lane.len(),
{
    if lane.len() > 0 {
        assert(!is_open(lane[lane.len() - 1]));
        assert forall|i: int| 0 <= i < lane.drop_last().len() implies !is_open(
            #[trigger] lane.drop_last()[i],
        ) by {
            assert(lane.drop_last()[i] == lane[i]);
        }
        lemma_none_held(lane.drop_last());
    }
}

/// A lane never has more than one open position: a new one is only asked for where none is open
/// and the cooldown since every exit is over.
pub proof fn lemma_one_position_per_lane(
    lane: Seq<PredictionView>,
    p: PredictionView,
    at: i64,
    now: i64,
    c: LabConfig,
)
    requires
        gate_of(lane, at, now, c) == Gate::AskForQuote,
        is_open(p),
    ensures
        tally(lane.push(p), held()) == 1,
        forall|i: int|
            0 <= i < lane.len() && (#[trigger] lane[i]).resolved_at is Some ==> at
                - lane[i].resolved_at->0 >= c.cooldown_secs * 1000,
{
    lemma_none_held(lane);
    assert(lane.push(p).drop_last() =~= lane);
    assert forall|i: int| 0 <= i < lane.len() && (#[trigger] lane[i]).resolved_at is Some implies at
        - lane[i].resolved_at->0 >= c.cooldown_secs * 1000 by {
        assert(!cooling(lane[i], at, c));
    }
}

/// Whether the lane of a signal may take a new position.
pub fn entry_gate(
    positions: &[Prediction],
    signal: &Signal,
    at: i64,
    now: i64,
    c: &LabConfig,
) -> (r: Gate)
    requires
        positions@.len() <= i64::MAX,
    ensures
        r == gate_of(
            of_lane(views(positions@), signal.strategy@, signal.horizon),
            at,
            now,
            *c,
        ),
{
    let of_this = paper::strategy_items(positions, signal.strategy);
    let lane = paper::horizon_items(&of_this, signal.horizon);
    let ghost all = ref_views(lane@);
    assert(all == of_lane(views(positions@), signal.strategy@, signal.horizon));
    let mut open = false;
    let mut recent = false;
    for n in 0..lane.len()
        invariant
            all == ref_views(lane@),
            open == (exists|i: int| 0 <= i < n && is_open(#[trigger] all[i])),
            recent == (exists|i: int| 0 <= i < n && cooling(#[trigger] all[i], at, *c)),
    {
        let p = lane[n];
        assert(all[n as int] == p@);
        if text::same(p.status.as_str(), "OPEN") {
            open = true;
        }
        if let Some(ts) = p.resolved_at {
            if at as i128 - (ts as i128) < c.cooldown_secs as i128 * 1000 {
                recent = true;
            }
        }
    }
    if open {
        return Gate::AlreadyOpen;
    }
    if recent {
        return Gate::Cooldown;
    }
    let so_far = paper::stats(lane.as_slice(), c.initial_capital, c);
    if so_far.net_pnl.plus(c.initial_capital).lt(c.notional.times(Num::ratio(102, 100))) {
        return Gate::NoEquity;
    }
    if now as i128 - at as i128 > c.max_gap_ms as i128 {
        return Gate::TooLate;
    }
    Gate::AskForQuote
}

/// Where a position is entered, and where it is left.
#[derive(Debug, Clone, Copy, PartialEq, Eq, Structural)]
pub struct EntryPlan {
    pub quote: Quote,
    pub decision_at: i64,
    pub entry_price: Num,
    pub target_price: Num,
    pub stop_price: Num,
    pub spread_bps: Num,
}

/// Whether a quote can be entered at: valid, and recent at the time of the decision.
pub open spec fn enterable(q: Quote, decision_at: i64, c: LabConfig) -> bool {
    q.spec_valid() && decision_at - q.ts <= c.max_quote_age_ms
}

/// The plan of a position that a signal opens at a quote.
pub open spec fn plan_of(
    q: Quote,
    direction: Seq<char>,
    stop_move: Num,
    decision_at: i64,
    c: LabConfig,
) -> EntryPlan {
    let entry = paper::spec_entry_fill(direction, q.bid, q.ask, c.slippage_bps);
    let sign = if direction == "LONG"@ {
        Num::one()
    } else {
        Num::one().negated()
    };
    EntryPlan {
        quote: q,
        decision_at,
        entry_price: entry,
        target_price: entry.times(
            Num::one().plus(sign.times(stop_move).times(c.risk_reward)),
        ),
        stop_price: entry.times(Num::one().minus(sign.times(stop_move))),
        spread_bps: spread_of(q.bid, q.ask),
    }
}

/// What becomes of a signal at the latest quote.
pub open spec fn entry_of(
    quote: Option<Quote>,
    direction: Seq<char>,
    stop_move: Num,
    decision_at: i64,
    c: LabConfig,
) -> Result<EntryPlan, EntryResult> {
    match quote {
        Some(q) => {
            let plan = plan_of(q, direction, stop_move, decision_at, c);
            if !enterable(q, decision_at, c) {
                Err(EntryResult::NoQuote)
            } else if c.max_spread_bps.lt(plan.spread_bps) {
                Err(EntryResult::WideSpread)
            } else if q.spec_entry_qty(direction).lt(c.notional.over(plan.entry_price)) {
                Err(EntryResult::ThinBook)
            } else {
                Ok(plan)
            }
        },
        None => Err(EntryResult::NoQuote),
    }
}

/// What becomes of a signal at the latest quote: the plan of a position, or why there is none.
/// The spread and the size shown are judged at the quote itself, not at the signal.
pub fn plan_entry(
    quote: Option<Quote>,
    signal: &Signal,
    decision_at: i64,
    c: &LabConfig,
) -> (r: Result<EntryPlan, EntryResult>)
    ensures
        match quote {
            Some(q) => {
                let plan = plan_of(q, signal.direction@, signal.stop_move, decision_at, *c);
                if !enterable(q, decision_at, *c) {
                    r == Err::<EntryPlan, EntryResult>(EntryResult::NoQuote)
                } else if c.max_spread_bps.lt(plan.spread_bps) {
                    r == Err::<EntryPlan, EntryResult>(EntryResult::WideSpread)
                } else if q.spec_entry_qty(signal.direction@).lt(
                    c.notional.over(plan.entry_price),
                ) {
                    r == Err::<EntryPlan, EntryResult>(EntryResult::ThinBook)
                } else {
                    r == Ok::<EntryPlan, EntryResult>(plan)
                }
            },
            None => r == Err::<EntryPlan, EntryResult>(EntryResult::NoQuote),
        },
        r == entry_of(quote, signal.direction@, signal.stop_move, decision_at, *c),
{
    let q = match quote {
        Some(q) => q,
        None => {
            return Err(EntryResult::NoQuote);
        },
    };
    if !q.valid() || decision_at as i128 - q.ts as i128 > c.max_quote_age_ms as i128 {
        return Err(EntryResult::NoQuote);
    }
    let spread_bps = q.ask.minus(q.bid).over(q.ask.plus(q.bid).over(Num::from_int(2))).times(
        Num::from_int(10_000),
    );
    let entry = paper::entry_fill(signal.direction, q.bid, q.ask, c.slippage_bps);
    if c.max_spread_bps.lt(spread_bps) {
        return Err(EntryResult::WideSpread);
    }
    if q.entry_qty(signal.direction).lt(c.notional.over(entry)) {
        return Err(EntryResult::ThinBook);
    }
    let sign = if text::same(signal.direction, "LONG") {
        Num::one()
    } else {
        Num::one().negated()
    };
    Ok(
        EntryPlan {
            quote: q,
            decision_at,
            entry_price: entry,
            target_price: entry.times(
                Num::one().plus(sign.times(signal.stop_move).times(c.risk_reward)),
            ),
            stop_price: entry.times(Num::one().minus(sign.times(signal.stop_move))),
            spread_bps,
        },
    )
}

/// What was known when a position was opened: the closed window, the rule and the quote.
#[derive(Debug, Clone)]
pub struct EntrySnapshot {
    pub schema_version: u32,
    pub evaluated_at: i64,
    pub window_ts: i64,
    pub window_quote_ts: Option<i64>,
    pub features: Feature,
    pub microstructure_score: Num,
    pub peer: Option<Peer>,
    pub checks: Vec<RuleCheck>,
    pub analogs: Option<BarrierStats>,
    pub decision_at: i64,
    pub quote: Quote,
    pub quote_age_ms: i64,
    pub spread_bps: Num,
    pub required_base_qty: Num,
    pub available_base_qty: Num,
}

/// The conditions that the consensus strategy passed.
pub open spec fn consensus_rule(
    f: Feature,
    score: Num,
    peer_score: Num,
    side: Num,
    b: BarrierStats,
    c: LabConfig,
) -> Seq<RuleCheck> {
    seq![
        check("score_x_side", score.times(side), Bound::Above, Num::ratio(2, 10)),
        check("ret_300s_x_side", f.ret_300s.times(side), Bound::Above, Num::zero()),
        check("peer_score_x_side", peer_score.times(side), Bound::Above, Num::ratio(2, 10)),
        check(
            "analog_samples",
            Num::from_count(b.samples as u64),
            Bound::AtLeast,
            Num::from_count(c.min_analog_samples as u64),
        ),
        check(
            "weighted_strict_win_rate",
            b.weighted_strict_win_rate,
            Bound::AtLeast,
            c.target_win_rate,
        ),
        check(
            "strict_win_rate",
            Num::from_count(b.wins as u64).over(Num::from_count(b.samples as u64)),
            Bound::AtLeast,
            c.target_win_rate,
        ),
        check(
            "wilson_lower_bound",
            b.wilson_lower_bound,
            Bound::AtLeast,
            c.min_win_lower_bound,
        ),
        check("expected_net_bps", b.expected_net_bps, Bound::AtLeast, c.min_edge_bps),
    ]
}

/// The conditions that a signal passed, as measured.
pub open spec fn passed_checks(signal: Signal, e: Evaluation, c: LabConfig) -> Seq<RuleCheck> {
    match (signal.analogs, e.peer) {
        (Some(b), Some(peer)) => consensus_rule(
            e.feature,
            e.score,
            peer.score,
            if signal.direction@ == "LONG"@ {
                Num::one()
            } else {
                Num::one().negated()
            },
            b,
            c,
        ),
        _ => rule_of(signal.number as int, e.feature, e.score),
    }
}

/// The conditions that a signal passed, as measured.
fn measure(signal: &Signal, e: &Evaluation, c: &LabConfig) -> (r: Vec<RuleCheck>)
    ensures
        r@ == passed_checks(*signal, *e, *c),
{
    match (&signal.analogs, &e.peer) {
        (Some(b), Some(peer)) => {
            let side = if text::same(signal.direction, "LONG") {
                Num::one()
            } else {
                Num::one().negated()
            };
            let mut v: Vec<RuleCheck> = Vec::new();
            v.push(check("score_x_side", e.score.times(side), Bound::Above, Num::ratio(2, 10)));
            v.push(
                check(
                    "ret_300s_x_side",
                    e.feature.ret_300s.times(side),
                    Bound::Above,
                    Num::zero(),
                ),
            );
            v.push(
                check(
                    "peer_score_x_side",
                    peer.score.times(side),
                    Bound::Above,
                    Num::ratio(2, 10),
                ),
            );
            v.push(
                check(
                    "analog_samples",
                    Num::from_count(b.samples as u64),
                    Bound::AtLeast,
                    Num::from_count(c.min_analog_samples as u64),
                ),
            );
            v.push(
                check(
                    "weighted_strict_win_rate",
                    b.weighted_strict_win_rate,
                    Bound::AtLeast,
                    c.target_win_rate,
                ),
            );
            v.push(
                check(
                    "strict_win_rate",
                    Num::from_count(b.wins as u64).over(Num::from_count(b.samples as u64)),
                    Bound::AtLeast,
                    c.target_win_rate,
                ),
            );
            v.push(
                check(
                    "wilson_lower_bound",
                    b.wilson_lower_bound,
                    Bound::AtLeast,
                    c.min_win_lower_bound,
                ),
            );
            v.push(
                check("expected_net_bps", b.expected_net_bps, Bound::AtLeast, c.min_edge_bps),
            );
            assert(v@ =~= consensus_rule(e.feature, e.score, peer.score, side, *b, *c));
            v
        },
        _ => rule_checks(signal.number, &e.feature, e.score),
    }
}

/// Whether a snapshot holds what was known when the plan of a signal was made.
pub open spec fn records(
    s: EntrySnapshot,
    plan: EntryPlan,
    signal: Signal,
    e: Evaluation,
    c: LabConfig,
) -> bool {
    &&& s.schema_version == 1
    &&& s.evaluated_at == e.evaluated_at
    &&& s.window_ts == e.window_ts
    &&& s.window_quote_ts == e.quote_ts
    &&& s.features == e.feature
    &&& s.microstructure_score == e.score
    &&& s.peer == e.peer
    &&& s.checks@ == passed_checks(signal, e, c)
    &&& s.analogs == signal.analogs
    &&& s.decision_at == plan.decision_at
    &&& s.quote == plan.quote
    &&& s.quote_age_ms == plan.decision_at - plan.quote.ts
    &&& s.spread_bps == plan.spread_bps
    &&& s.required_base_qty == c.notional.over(plan.entry_price)
    &&& s.available_base_qty == plan.quote.spec_entry_qty(signal.direction@)
}

/// What was known when the plan of a signal was made.
pub fn entry_snapshot(
    plan: &EntryPlan,
    signal: &Signal,
    e: &Evaluation,
    c: &LabConfig,
) -> (r: EntrySnapshot)
    requires
        is_moment(plan.decision_at),
        is_moment(plan.quote.ts),
    ensures
        records(r, *plan, *signal, *e, *c),
{
    EntrySnapshot {
        schema_version: 1,
        evaluated_at: e.evaluated_at,
        window_ts: e.window_ts,
        window_quote_ts: e.quote_ts,
        features: e.feature,
        microstructure_score: e.score,
        peer: e.peer,
        checks: measure(signal, e, c),
        analogs: signal.analogs,
        decision_at: plan.decision_at,
        quote: plan.quote,
        quote_age_ms: plan.decision_at - plan.quote.ts,
        spread_bps: plan.spread_bps,
        required_base_qty: c.notional.over(plan.entry_price),
        available_base_qty: plan.quote.entry_qty(signal.direction),
    }
}

/// A position before any quote is observed.
pub open spec fn unobserved(
    id: Seq<char>,
    exchange: Exchange,
    symbol: Seq<char>,
    config_id: Seq<char>,
    reason: Seq<char>,
    snapshot: Option<serde_json::Value>,
    plan: EntryPlan,
    signal: Signal,
    c: LabConfig,
) -> PredictionView {
    PredictionView {
        id,
        exchange,
        symbol,
        created_at: plan.decision_at,
        horizon_secs: signal.horizon,
        direction: signal.direction@,
        entry_price: plan.entry_price,
        target_price: plan.target_price,
        stop_price: plan.stop_price,
        confidence: signal.evidence,
        score: signal.score,
        expected_return: signal.expected_return,
        strategy: signal.strategy@,
        status: "OPEN"@,
        resolved_at: None,
        exit_price: None,
        pnl_bps: None,
        config_id,
        fee_bps: c.fee(exchange),
        slippage_bps: c.slippage_bps,
        notional: c.notional,
        gross_pnl_bps: None,
        cursor_id: plan.quote.id,
        last_quote_ts: plan.quote.ts,
        mark_price: if c.notional.over(plan.entry_price).le(
            plan.quote.spec_exit_qty(signal.direction@),
        ) {
            Some(plan.quote.spec_exit_price(signal.direction@))
        } else {
            None
        },
        max_gap_ms: c.max_gap_ms,
        entry_reason: reason,
        entry_snapshot: snapshot,
        execution_audit: None,
    }
}

/// A position as it is opened, its audit complete from the entry quote on.
pub open spec fn opened(p: PredictionView, plan: EntryPlan) -> PredictionView {
    let begun = PredictionView {
        execution_audit: Some(ExecutionAudit::fresh(p, true, plan.decision_at)),
        ..p
    };
    observed(begun, plan.quote, true)
}

/// The position that a signal opens under a given identifier.
pub fn position_with(
    id: String,
    exchange: Exchange,
    symbol: &str,
    config_id: &str,
    reason: String,
    snapshot: Option<serde_json::Value>,
    plan: &EntryPlan,
    signal: &Signal,
    c: &LabConfig,
) -> (r: Prediction)
    requires
        is_moment(plan.quote.ts),
    ensures
        r@ == opened(
            unobserved(
                id@,
                exchange,
                symbol@,
                config_id@,
                reason@,
                snapshot,
                *plan,
                *signal,
                *c,
            ),
            *plan,
        ),
{
    let ghost bare = unobserved(
        id@,
        exchange,
        symbol@,
        config_id@,
        reason@,
        snapshot,
        *plan,
        *signal,
        *c,
    );
    let liquid = c.notional.over(plan.entry_price).le(plan.quote.exit_qty(signal.direction));
    let mut p = Prediction {
        id,
        exchange,
        symbol: symbol.to_owned(),
        created_at: plan.decision_at,
        horizon_secs: signal.horizon,
        direction: signal.direction.to_owned(),
        entry_price: plan.entry_price,
        target_price: plan.target_price,
        stop_price: plan.stop_price,
        confidence: signal.evidence,
        score: signal.score,
        expected_return: signal.expected_return,
        strategy: signal.strategy.to_owned(),
        status: "OPEN".to_owned(),
        resolved_at: None,
        exit_price: None,
        pnl_bps: None,
        config_id: config_id.to_owned(),
        fee_bps: c.fee(exchange),
        slippage_bps: c.slippage_bps,
        notional: c.notional,
        gross_pnl_bps: None,
        cursor_id: plan.quote.id,
        last_quote_ts: plan.quote.ts,
        mark_price: if liquid {
            Some(plan.quote.exit_price(signal.direction))
        } else {
            None
        },
        max_gap_ms: c.max_gap_ms,
        entry_reason: reason,
        entry_snapshot: snapshot,
        execution_audit: None,
    };
    assert(p@ =~= bare);
    let trace = ExecutionAudit::start(&p, true, plan.decision_at);
    p.execution_audit = Some(trace);
    assert(p@ =~= (PredictionView {
        execution_audit: Some(ExecutionAudit::fresh(bare, true, plan.decision_at)),
        ..bare
    }));
    audit::observe(&mut p, &plan.quote, true);
    p
}

/// `uuid::Uuid::new_v4().to_string()`: a random identifier. Nothing is claimed of it.
#[verifier::external_body]
fn random_id() -> String {
    uuid::Uuid::new_v4().to_string()
}

/// The position that a signal opens, under a new identifier. All but the identifier is fixed by
/// the arguments.
pub fn open_position(
    exchange: Exchange,
    symbol: &str,
    config_id: &str,
    reason: String,
    snapshot: Option<serde_json::Value>,
    plan: &EntryPlan,
    signal: &Signal,
    c: &LabConfig,
) -> (r: Prediction)
    requires
        is_moment(plan.quote.ts),
    ensures
        r@ == opened(
            unobserved(
                r.id@,
                exchange,
                symbol@,
                config_id@,
                reason@,
                snapshot,
                *plan,
                *signal,
                *c,
            ),
            *plan,
        ),
{
    position_with(
        random_id(),
        exchange,
        symbol,
        config_id,
        reason,
        snapshot,
        plan,
        signal,
        c,
    )
}

/// A position is opened at its entry quote: open, with that quote as first, last and only
/// observation, and nothing to its exit.
pub proof fn lemma_entry_is_on_record(p: PredictionView, plan: EntryPlan)
    ensures
        ({
            let o = opened(p, plan);
            &&& o.status == p.status
            &&& o.created_at == p.created_at
            &&& o.execution_audit is Some
            &&& o.execution_audit->0.complete_from_entry
            &&& o.execution_audit->0.quotes_observed == 1
            &&& o.execution_audit->0.first is Some
            &&& o.execution_audit->0.first->0.quote == plan.quote
            &&& o.execution_audit->0.last == o.execution_audit->0.first
            &&& o.execution_audit->0.exit is None
        }),
{
}

/// Which lanes have a reason, and which one the lane of a strategy and horizon gets.
pub open spec fn is_lane(d: LaneDiagnostic, strategy: Seq<char>, horizon: i64) -> bool {
    d.strategy@ == strategy && d.horizon_secs == horizon
}

/// Gives the first lane of a strategy and horizon a new reason.
pub fn set_reason(lanes: &mut Vec<LaneDiagnostic>, strategy: &str, horizon: i64, reason: String)
    ensures
        final(lanes)@.len() == old(lanes)@.len(),
        forall|i: int|
            0 <= i < final(lanes)@.len() ==> {
                let was = #[trigger] old(lanes)@[i];
                let now = final(lanes)@[i];
                &&& now.strategy@ == was.strategy@
                &&& now.horizon_secs == was.horizon_secs
                &&& now.reason@ == if is_lane(was, strategy@, horizon) && forall|j: int|
                    0 <= j < i ==> !is_lane(#[trigger] old(lanes)@[j], strategy@, horizon) {
                    reason@
                } else {
                    was.reason@
                }
            },
{
    let ghost before = lanes@;
    let mut n: usize = 0;
    while n < lanes.len()
        invariant
            n <= lanes@.len(),
            lanes@ == before,
            before == old(lanes)@,
            forall|j: int| 0 <= j < n ==> !is_lane(#[trigger] before[j], strategy@, horizon),
        decreases lanes@.len() - n,
    {
        if lanes[n].horizon_secs == horizon && text::same(lanes[n].strategy.as_str(), strategy) {
            let renamed = LaneDiagnostic {
                strategy: lanes[n].strategy.clone(),
                horizon_secs: horizon,
                reason,
            };
            lanes.set(n, renamed);
            return;
        }
        n += 1;
    }
}

} // verus!
