//! The report on an export: its positions, their groups and what is missing.

use super::{
    counts_of, is_priced, lemma_counts_account_for_all, lemma_counts_push, Counts, ExportFilters,
    ExportPosition, ExportSnapshot,
};
use crate::audit::diagnosis_of;
use crate::json;
use crate::json::{content, Json};
use crate::model::{now_ms, views, Prediction, PredictionView};
use crate::num::Num;
use crate::paper::ledger::{lemma_tally_push, summed, tally};
use crate::text;
use crate::text::{
    lemma_precedes_irreflexive, lemma_precedes_total, lemma_precedes_transitive, precedes,
};
use vstd::prelude::*;

verus! {

/// What the positions of a group have in common.
#[derive(Debug, Clone, PartialEq, Eq, PartialOrd, Ord)]
pub struct GroupKey {
    pub exchange: String,
    pub symbol: String,
    pub config_id: String,
    pub strategy: String,
    pub horizon_secs: i64,
    pub direction: String,
}

/// What a group key says.
#[verifier::ext_equal]
pub struct KeyView {
    pub exchange: Seq<char>,
    pub symbol: Seq<char>,
    pub config_id: Seq<char>,
    pub strategy: Seq<char>,
    pub horizon_secs: i64,
    pub direction: Seq<char>,
}

impl View for GroupKey {
    type V = KeyView;

    open spec fn view(&self) -> KeyView {
        KeyView {
            exchange: self.exchange@,
            symbol: self.symbol@,
            config_id: self.config_id@,
            strategy: self.strategy@,
            horizon_secs: self.horizon_secs,
            direction: self.direction@,
        }
    }
}

/// The group of a position.
pub open spec fn key_of(p: PredictionView) -> KeyView {
    KeyView {
        exchange: p.exchange.spec_name(),
        symbol: p.symbol,
        config_id: p.config_id,
        strategy: p.strategy,
        horizon_secs: p.horizon_secs,
        direction: p.direction,
    }
}

/// The order of groups: by exchange, symbol, configuration, strategy, horizon and direction.
pub open spec fn key_before(a: KeyView, b: KeyView) -> bool {
    if a.exchange != b.exchange {
        precedes(a.exchange, b.exchange)
    } else if a.symbol != b.symbol {
        precedes(a.symbol, b.symbol)
    } else if a.config_id != b.config_id {
        precedes(a.config_id, b.config_id)
    } else if a.strategy != b.strategy {
        precedes(a.strategy, b.strategy)
    } else if a.horizon_secs != b.horizon_secs {
        a.horizon_secs < b.horizon_secs
    } else {
        precedes(a.direction, b.direction)
    }
}

/// The positions of a group.
pub open spec fn members(s: Seq<PredictionView>, key: KeyView) -> Seq<PredictionView> {
    s.filter(|p: PredictionView| key_of(p) == key)
}

/// The condition that a position was left for that reason.
pub open spec fn left_for(reason: Seq<char>) -> spec_fn(PredictionView) -> bool {
    |p: PredictionView| diagnosis_of(p).exit_reason == reason
}

/// The result of a position in the quote asset, zero where it is not known.
pub open spec fn known_gain() -> spec_fn(PredictionView) -> Num {
    |p: PredictionView|
        match diagnosis_of(p).net_pnl_quote {
            Some(x) => x,
            None => Num::zero(),
        }
}

/// The result of a position in basis points, zero where it is not known.
pub open spec fn known_bps() -> spec_fn(PredictionView) -> Num {
    |p: PredictionView|
        match p.pnl_bps {
            Some(x) => x,
            None => Num::zero(),
        }
}

/// What became of the positions of a group.
#[derive(Debug)]
pub struct GroupSummary {
    pub key: GroupKey,
    pub counts: Counts,
    pub net_win_rate_all_closed: Option<Num>,
    pub net_win_rate_priced_closed: Option<Num>,
    pub known_net_pnl_quote: Num,
    pub avg_known_net_bps: Option<Num>,
    pub exit_reasons: Vec<(String, usize)>,
    pub net_bps_sum: Num,
}

/// Whether a reason is in a list.
pub open spec fn has_reason(v: Seq<(String, usize)>, reason: Seq<char>) -> bool {
    exists|i: int| 0 <= i < v.len() && (#[trigger] v[i]).0@ == reason
}

/// Whether a list holds every reason for which positions were left, in order and once, with how
/// often it occurred.
pub open spec fn tells_reasons(v: Seq<(String, usize)>, s: Seq<PredictionView>) -> bool {
    &&& forall|i: int, j: int|
        0 <= i < j < v.len() ==> precedes((#[trigger] v[i]).0@, (#[trigger] v[j]).0@)
    &&& forall|i: int|
        0 <= i < v.len() ==> (#[trigger] v[i]).1 == tally(s, left_for(v[i].0@)) && v[i].1 > 0
    &&& forall|k: int|
        0 <= k < s.len() ==> has_reason(v, diagnosis_of(#[trigger] s[k]).exit_reason)
}

/// Whether a summary holds the sums and counts of positions.
pub open spec fn sums_up(g: GroupSummary, s: Seq<PredictionView>) -> bool {
    &&& g.counts == counts_of(s)
    &&& g.known_net_pnl_quote == summed(s, is_priced(), known_gain())
    &&& g.net_bps_sum == summed(s, is_priced(), known_bps())
    &&& tells_reasons(g.exit_reasons@, s)
}

/// Whether a summary holds the rates that follow from its sums and counts. Positions without a
/// known result stay in the denominator of the one, not of the other.
pub open spec fn rates(g: GroupSummary) -> bool {
    &&& g.net_win_rate_all_closed == if g.counts.closed > 0 {
        Some(
            Num::from_count(g.counts.profitable as u64).over(
                Num::from_count(g.counts.closed as u64),
            ),
        )
    } else {
        None
    }
    &&& g.net_win_rate_priced_closed == if g.counts.priced_closed > 0 {
        Some(
            Num::from_count(g.counts.profitable as u64).over(
                Num::from_count(g.counts.priced_closed as u64),
            ),
        )
    } else {
        None
    }
    &&& g.avg_known_net_bps == if g.counts.priced_closed > 0 {
        Some(g.net_bps_sum.over(Num::from_count(g.counts.priced_closed as u64)))
    } else {
        None
    }
}

/// Whether there is a group of that key.
pub open spec fn has_key(groups: Seq<GroupSummary>, key: KeyView) -> bool {
    exists|i: int| 0 <= i < groups.len() && (#[trigger] groups[i]).key@ == key
}

/// Whether groups are in order, cover the positions, and each sums up its own.
pub open spec fn groups_cover(groups: Seq<GroupSummary>, s: Seq<PredictionView>) -> bool {
    &&& forall|i: int, j: int|
        0 <= i < j < groups.len() ==> key_before(
            (#[trigger] groups[i]).key@,
            (#[trigger] groups[j]).key@,
        )
    &&& forall|i: int|
        0 <= i < groups.len() ==> sums_up(
            #[trigger] groups[i],
            members(s, groups[i].key@),
        ) && members(s, groups[i].key@).len() > 0
    &&& forall|k: int| 0 <= k < s.len() ==> has_key(groups, key_of(#[trigger] s[k]))
}

/// What an export tells.
#[derive(Debug)]
pub struct ExportReport {
    pub schema_version: u32,
    pub kind: &'static str,
    pub generated_at: i64,
    pub filters: ExportFilters,
    pub complete: bool,
    pub position_count: usize,
    pub counts: Counts,
    pub groups: Vec<GroupSummary>,
    pub configurations: Vec<serde_json::Value>,
    pub unavailable_configuration_ids: Vec<String>,
    pub notes: [&'static str; 10],
    pub positions: Vec<ExportPosition>,
}

/// What a reader of an export has to know.
pub const NOTES: [&'static str; 10] = [
    "Paper trades only. Observations describe execution and outcomes; they do not establish the market cause of a loss or future profitability.",
    "All matching positions are included, oldest first, from one database read snapshot. Dates filter entry time: from inclusive, to exclusive. Times are UTC epoch milliseconds; bps means 0.01%.",
    "Entry snapshots are immutable and recorded before outcomes. Missing historical features and detailed exits are not reconstructed. Partial audits cover only observations processed after the upgrade.",
    "Groups keep exchange, symbol, config, strategy, horizon and direction separate. Legacy outcomes use the old gross-price model, even though the old column is named pnl_bps. Missing legacy notional/config values are migration defaults, not recovered account facts.",
    "Net win rate all closed includes unverifiable outcomes in the denominator, matching V3 dashboard accounting. Priced-closed win rate excludes them and is reported separately; neither counts an unknown outcome as a priced loss.",
    "Fees-change-profit-to-loss and profit-giveback counts are overlapping subsets of losses, not extra losses. Gross PnL already contains spread/slippage; fees_paid_bps is gross minus net. Do not subtract slippage again.",
    "Best/worst marks use observed executable exit quotes with modeled costs, including the entry quote. They are uncapped hypothetical marks; actual favorable target fills are capped at target. Sparse/unfillable quotes cannot establish a complete price path. No ticks after exit are included.",
    "Signal scores are not win probabilities. Feature returns are natural log returns; volatility is per five-second return; flow/book imbalances are signed ratios. Historical analog evidence is in-sample selection evidence, not forward win rate.",
    "V4 expected_return is the weighted historical NET estimate as a fraction. V4 plans net target profit at three times net stop loss, at the stored executable levels; adverse stop gaps and timeouts can change realized reward/risk. V3 used a gross-distance ratio. Check each configuration and planned_net_reward_risk.",
    "Raw market archives and credentials are not exported. JSON contains full decision/configuration evidence; CSV is a flat comparison with embedded evidence JSON.",
];

/// Whether a value is the configuration of that identifier.
pub open spec fn is_configuration(c: Json, id: Seq<char>) -> bool {
    c.member("id"@) is Some && c.member("id"@)->0.text() == Some(id)
}

/// Whether the configuration of a position is not among those at hand.
pub open spec fn is_unavailable(
    s: Seq<PredictionView>,
    configurations: Seq<serde_json::Value>,
    id: Seq<char>,
) -> bool {
    &&& exists|k: int| 0 <= k < s.len() && (#[trigger] s[k]).config_id == id
    &&& forall|k: int|
        0 <= k < configurations.len() ==> !is_configuration(
            content(#[trigger] configurations[k]),
            id,
        )
}

/// Whether a list holds texts in order, each once.
pub open spec fn ascending(v: Seq<String>) -> bool {
    forall|i: int, j: int|
        0 <= i < j < v.len() ==> precedes((#[trigger] v[i])@, (#[trigger] v[j])@)
}

/// Whether a text is in a list.
pub open spec fn listed(v: Seq<String>, x: Seq<char>) -> bool {
    exists|i: int| 0 <= i < v.len() && (#[trigger] v[i])@ == x
}

/// Whether a report tells all of an export.
pub open spec fn reports_all(
    r: ExportReport,
    positions: Seq<Prediction>,
    configurations: Seq<serde_json::Value>,
    filters: ExportFilters,
    generated_at: i64,
) -> bool {
    let s = views(positions);
    &&& r.schema_version == 1
    &&& r.kind@ == "market_lab_position_diagnostics"@
    &&& r.generated_at == generated_at
    &&& r.filters == filters
    &&& r.complete
    &&& r.position_count == positions.len()
    &&& r.counts == counts_of(s)
    &&& groups_cover(r.groups@, s)
    &&& forall|i: int| 0 <= i < r.groups@.len() ==> rates(#[trigger] r.groups@[i])
    &&& r.configurations@ == configurations
    &&& ascending(r.unavailable_configuration_ids@)
    &&& forall|id: Seq<char>| #[trigger]
        listed(r.unavailable_configuration_ids@, id) <==> is_unavailable(s, configurations, id)
    &&& r.notes == NOTES
    &&& r.positions@.len() == positions.len()
    &&& forall|i: int|
        0 <= i < r.positions@.len() ==> {
            &&& (#[trigger] r.positions@[i]).position == positions[i]
            &&& r.positions@[i].consistent()
        }
}

proof fn lemma_filter_push(
    s: Seq<PredictionView>,
    p: PredictionView,
    holds: spec_fn(PredictionView) -> bool,
)
    ensures
        s.push(p).filter(holds) == if holds(p) {
            s.filter(holds).push(p)
        } else {
            s.filter(holds)
        },
{
    reveal(Seq::filter);
    assert(s.push(p).drop_last() =~= s);
}

proof fn lemma_filter_len(s: Seq<PredictionView>, holds: spec_fn(PredictionView) -> bool)
    ensures
        s.filter(holds).len() <= s.len(),
        (forall|i: int| 0 <= i < s.len() ==> !holds(#[trigger] s[i])) ==> s.filter(holds).len()
            == 0,
    decreases s.len(),
{
    reveal(Seq::filter);
    if s.len() > 0 {
        lemma_filter_len(s.drop_last(), holds);
        if forall|i: int| 0 <= i < s.len() ==> !holds(#[trigger] s[i]) {
            assert(!holds(s[s.len() - 1]));
            assert forall|i: int| 0 <= i < s.drop_last().len() implies !holds(
                #[trigger] s.drop_last()[i],
            ) by {
                assert(s.drop_last()[i] == s[i]);
            }
        }
    }
}

proof fn lemma_summed_step(
    s: Seq<PredictionView>,
    p: PredictionView,
    holds: spec_fn(PredictionView) -> bool,
    amount: spec_fn(PredictionView) -> Num,
)
    ensures
        summed(s.push(p), holds, amount) == if holds(p) {
            summed(s, holds, amount).plus(amount(p))
        } else {
            summed(s, holds, amount)
        },
{
    assert(s.push(p).drop_last() =~= s);
}

/// A condition that holds of no position is counted never.
proof fn lemma_tally_none(s: Seq<PredictionView>, holds: spec_fn(PredictionView) -> bool)
    requires
        forall|i: int| 0 <= i < s.len() ==> !holds(#[trigger] s[i]),
    ensures
        tally(s, holds) == 0,
    decreases s.len(),
{
    if s.len() > 0 {
        assert(!holds(s[s.len() - 1]));
        assert forall|i: int| 0 <= i < s.drop_last().len() implies !holds(
            #[trigger] s.drop_last()[i],
        ) by {
            assert(s.drop_last()[i] == s[i]);
        }
        lemma_tally_none(s.drop_last(), holds);
    }
}

/// Counts one more position that was left for a reason.
fn note_reason(
    reasons: &mut Vec<(String, usize)>,
    reason: &str,
    Ghost(s): Ghost<Seq<PredictionView>>,
    Ghost(p): Ghost<PredictionView>,
)
    requires
        tells_reasons(old(reasons)@, s),
        reason@ == diagnosis_of(p).exit_reason,
        s.len() < usize::MAX,
    ensures
        tells_reasons(final(reasons)@, s.push(p)),
{
    let ghost v = reasons@;
    let ghost r = reason@;
    let mut at: usize = 0;
    while at < reasons.len() && text::before(reasons[at].0.as_str(), reason)
        invariant
            at <= reasons@.len(),
            v == reasons@,
            v == old(reasons)@,
            r == reason@,
            forall|i: int| 0 <= i < at ==> precedes((#[trigger] v[i]).0@, r),
        decreases reasons@.len() - at,
    {
        at += 1;
    }
    let ghost t = s.push(p);
    proof {
        assert forall|i: int| 0 <= i < v.len() implies tally(t, left_for((#[trigger] v[i]).0@))
            == v[i].1 + (if v[i].0@ == r {
            1nat
        } else {
            0nat
        }) by {
            lemma_tally_push(s, p, left_for(v[i].0@));
        }
        lemma_tally_push(s, p, left_for(r));
    }
    if at < reasons.len() && text::same(reasons[at].0.as_str(), reason) {
        let name = reasons[at].0.clone();
        let count = reasons[at].1;
        assert(v[at as int].1 == tally(s, left_for(v[at as int].0@)));
        reasons.set(at, (name, count + 1));
        proof {
            let w = reasons@;
            assert forall|i: int, j: int| 0 <= i < j < w.len() implies precedes(
                (#[trigger] w[i]).0@,
                (#[trigger] w[j]).0@,
            ) by {
                assert(w[i].0@ == v[i].0@ && w[j].0@ == v[j].0@);
            }
            assert forall|i: int| 0 <= i < w.len() implies (#[trigger] w[i]).1 == tally(
                t,
                left_for(w[i].0@),
            ) && w[i].1 > 0 by {
                assert(w[i].0@ == v[i].0@);
                if i != at {
                    if v[i].0@ == r {
                        lemma_precedes_irreflexive(r);
                        if i < at {
                            assert(precedes(v[i].0@, v[at as int].0@));
                        } else {
                            assert(precedes(v[at as int].0@, v[i].0@));
                        }
                    }
                }
            }
            assert forall|k: int| 0 <= k < t.len() implies has_reason(
                w,
                diagnosis_of(#[trigger] t[k]).exit_reason,
            ) by {
                if k < s.len() {
                    assert(t[k] == s[k]);
                    assert(has_reason(v, diagnosis_of(s[k]).exit_reason));
                    let i = choose|i: int|
                        0 <= i < v.len() && (#[trigger] v[i]).0@ == diagnosis_of(s[k]).exit_reason;
                    assert(w[i].0@ == v[i].0@);
                } else {
                    assert(w[at as int].0@ == r);
                }
            }
        }
    } else {
        proof {
            // Nothing was left for this reason before.
            assert forall|k: int| 0 <= k < s.len() implies !left_for(r)(#[trigger] s[k]) by {
                if diagnosis_of(s[k]).exit_reason == r {
                    assert(has_reason(v, diagnosis_of(s[k]).exit_reason));
                    let i = choose|i: int|
                        0 <= i < v.len() && (#[trigger] v[i]).0@ == diagnosis_of(s[k]).exit_reason;
                    if i < at {
                        lemma_precedes_irreflexive(r);
                    } else if i > at {
                        assert(precedes(v[at as int].0@, v[i].0@));
                    }
                }
            }
            lemma_tally_none(s, left_for(r));
            if at < v.len() {
                lemma_precedes_total(v[at as int].0@, r);
            }
        }
        reasons.insert(at, (reason.to_owned(), 1));
        proof {
            let w = reasons@;
            let k0 = at as int;
            assert forall|i: int, j: int| 0 <= i < j < w.len() implies precedes(
                (#[trigger] w[i]).0@,
                (#[trigger] w[j]).0@,
            ) by {
                if i < k0 && j < k0 {
                    assert(w[i] == v[i] && w[j] == v[j]);
                } else if i < k0 && j == k0 {
                    assert(w[i] == v[i]);
                } else if i < k0 {
                    assert(w[i] == v[i] && w[j] == v[j - 1]);
                } else if i == k0 {
                    assert(w[j] == v[j - 1]);
                    if j - 1 > k0 {
                        assert(precedes(v[k0].0@, v[j - 1].0@));
                        lemma_precedes_transitive(r, v[k0].0@, v[j - 1].0@);
                    }
                } else {
                    assert(w[i] == v[i - 1] && w[j] == v[j - 1]);
                }
            }
            assert forall|i: int| 0 <= i < w.len() implies (#[trigger] w[i]).1 == tally(
                t,
                left_for(w[i].0@),
            ) && w[i].1 > 0 by {
                if i != k0 {
                    let o = if i < k0 {
                        i
                    } else {
                        i - 1
                    };
                    assert(w[i] == v[o]);
                    assert(v[o].1 == tally(s, left_for(v[o].0@)));
                    if v[o].0@ == r {
                        if o < k0 {
                            lemma_precedes_irreflexive(r);
                        } else if o > k0 {
                            assert(precedes(v[k0].0@, v[o].0@));
                            lemma_precedes_transitive(r, v[k0].0@, v[o].0@);
                            lemma_precedes_irreflexive(r);
                        }
                    }
                }
            }
            assert forall|k: int| 0 <= k < t.len() implies has_reason(
                w,
                diagnosis_of(#[trigger] t[k]).exit_reason,
            ) by {
                if k < s.len() {
                    assert(t[k] == s[k]);
                    assert(has_reason(v, diagnosis_of(s[k]).exit_reason));
                    let i = choose|i: int|
                        0 <= i < v.len() && (#[trigger] v[i]).0@ == diagnosis_of(s[k]).exit_reason;
                    if i < k0 {
                        assert(w[i] == v[i]);
                    } else {
                        assert(w[i + 1] == v[i]);
                    }
                } else {
                    assert(w[k0].0@ == r);
                }
            }
        }
    }
}

/// Adds a text to a list in order, unless it is there.
fn enlist(ids: &mut Vec<String>, id: &str)
    requires
        ascending(old(ids)@),
    ensures
        ascending(final(ids)@),
        forall|x: Seq<char>| #[trigger]
            listed(final(ids)@, x) <==> listed(old(ids)@, x) || x == id@,
{
    let ghost v = ids@;
    let mut at: usize = 0;
    while at < ids.len() && text::before(ids[at].as_str(), id)
        invariant
            at <= ids@.len(),
            v == ids@,
            v == old(ids)@,
            forall|i: int| 0 <= i < at ==> precedes((#[trigger] v[i])@, id@),
        decreases ids@.len() - at,
    {
        at += 1;
    }
    if at < ids.len() && text::same(ids[at].as_str(), id) {
        assert(listed(v, id@)) by {
            assert(v[at as int]@ == id@);
        }
        return;
    }
    proof {
        if at < v.len() {
            lemma_precedes_total(v[at as int]@, id@);
        }
    }
    ids.insert(at, id.to_owned());
    proof {
        let w = ids@;
        let k0 = at as int;
        assert forall|i: int, j: int| 0 <= i < j < w.len() implies precedes(
            (#[trigger] w[i])@,
            (#[trigger] w[j])@,
        ) by {
            if i < k0 && j < k0 {
                assert(w[i] == v[i] && w[j] == v[j]);
            } else if i < k0 && j == k0 {
                assert(w[i] == v[i]);
            } else if i < k0 {
                assert(w[i] == v[i] && w[j] == v[j - 1]);
            } else if i == k0 {
                assert(w[j] == v[j - 1]);
                if j - 1 > k0 {
                    assert(precedes(v[k0]@, v[j - 1]@));
                    lemma_precedes_transitive(id@, v[k0]@, v[j - 1]@);
                }
            } else {
                assert(w[i] == v[i - 1] && w[j] == v[j - 1]);
            }
        }
        assert forall|x: Seq<char>| #[trigger] listed(w, x) <==> listed(v, x) || x == id@ by {
            if listed(w, x) {
                let i = choose|i: int| 0 <= i < w.len() && (#[trigger] w[i])@ == x;
                if i < k0 {
                    assert(v[i]@ == x);
                } else if i > k0 {
                    assert(v[i - 1]@ == x);
                }
            }
            if listed(v, x) {
                let i = choose|i: int| 0 <= i < v.len() && (#[trigger] v[i])@ == x;
                if i < k0 {
                    assert(w[i]@ == x);
                } else {
                    assert(w[i + 1]@ == x);
                }
            }
            if x == id@ {
                assert(w[k0]@ == x);
            }
        }
    }
}

/// Whether one of the configurations has an identifier.
fn available(configurations: &Vec<serde_json::Value>, id: &str) -> (r: bool)
    ensures
        r == exists|k: int|
            0 <= k < configurations@.len() && is_configuration(
                content(#[trigger] configurations@[k]),
                id@,
            ),
{
    for n in 0..configurations.len()
        invariant
            forall|k: int|
                0 <= k < n ==> !is_configuration(content(#[trigger] configurations@[k]), id@),
    {
        if let Some(found) = json::member(&configurations[n], "id") {
            if let Some(name) = json::text_of(found) {
                if text::same(name, id) {
                    assert(is_configuration(content(configurations@[n as int]), id@));
                    return true;
                }
            }
        }
    }
    false
}

/// The identifiers of configurations that positions have and that are not at hand, in order.
fn unavailable(positions: &Vec<ExportPosition>, configurations: &Vec<serde_json::Value>) -> (r:
    Vec<String>)
    ensures
        ascending(r@),
        forall|id: Seq<char>| #[trigger]
            listed(r@, id) <==> is_unavailable(
                position_views(positions@),
                configurations@,
                id,
            ),
{
    let ghost s = position_views(positions@);
    let mut ids: Vec<String> = Vec::new();
    for n in 0..positions.len()
        invariant
            s == position_views(positions@),
            ascending(ids@),
            forall|x: Seq<char>| #[trigger]
                listed(ids@, x) <==> exists|k: int|
                    0 <= k < n && (#[trigger] s[k]).config_id == x,
    {
        let ghost before = ids@;
        let id = positions[n].position.config_id.as_str();
        assert(s[n as int].config_id == id@);
        enlist(&mut ids, id);
        assert forall|x: Seq<char>| #[trigger] listed(ids@, x) <==> exists|k: int|
            0 <= k < n + 1 && (#[trigger] s[k]).config_id == x by {
            assert(listed(ids@, x) <==> listed(before, x) || x == id@);
            if exists|k: int| 0 <= k < n && (#[trigger] s[k]).config_id == x {
                let k = choose|k: int| 0 <= k < n && (#[trigger] s[k]).config_id == x;
                assert(s[k].config_id == x);
            }
        }
    }
    let mut missing: Vec<String> = Vec::new();
    for n in 0..ids.len()
        invariant
            ascending(ids@),
            ascending(missing@),
            forall|i: int, k: int|
                0 <= i < missing@.len() && n <= k < ids@.len() ==> precedes(
                    (#[trigger] missing@[i])@,
                    (#[trigger] ids@[k])@,
                ),
            forall|x: Seq<char>| #[trigger]
                listed(missing@, x) <==> (exists|k: int|
                    0 <= k < n && (#[trigger] ids@[k])@ == x) && !(exists|k: int|
                    0 <= k < configurations@.len() && is_configuration(
                        content(#[trigger] configurations@[k]),
                        x,
                    )),
    {
        let ghost before = missing@;
        let ghost here = ids@[n as int]@;
        if !available(configurations, ids[n].as_str()) {
            missing.push(ids[n].clone());
            proof {
                let w = missing@;
                assert forall|i: int, j: int| 0 <= i < j < w.len() implies precedes(
                    (#[trigger] w[i])@,
                    (#[trigger] w[j])@,
                ) by {
                    assert(w[i] == before[i]);
                    if j < before.len() {
                        assert(w[j] == before[j]);
                    } else {
                        assert(precedes(before[i]@, ids@[n as int]@));
                    }
                }
            }
        }
        proof {
            let w = missing@;
            assert forall|i: int, k: int|
                0 <= i < w.len() && n + 1 <= k < ids@.len() implies precedes(
                (#[trigger] w[i])@,
                (#[trigger] ids@[k])@,
            ) by {
                if i < before.len() {
                    assert(w[i] == before[i]);
                    assert(precedes(before[i]@, ids@[k]@));
                } else {
                    assert(precedes(ids@[n as int]@, ids@[k]@));
                }
            }
            assert forall|x: Seq<char>| #[trigger] listed(w, x) <==> (exists|k: int|
                0 <= k < n + 1 && (#[trigger] ids@[k])@ == x) && !(exists|k: int|
                0 <= k < configurations@.len() && is_configuration(
                    content(#[trigger] configurations@[k]),
                    x,
                )) by {
                if listed(w, x) {
                    let i = choose|i: int| 0 <= i < w.len() && (#[trigger] w[i])@ == x;
                    if i < before.len() {
                        assert(before[i]@ == x);
                        assert(listed(before, x));
                        let k = choose|k: int| 0 <= k < n && (#[trigger] ids@[k])@ == x;
                        assert(ids@[k]@ == x);
                    } else {
                        assert(ids@[n as int]@ == x);
                    }
                }
                if (exists|k: int| 0 <= k < n + 1 && (#[trigger] ids@[k])@ == x) && !(exists|
                    k: int,
                |
                    0 <= k < configurations@.len() && is_configuration(
                        content(#[trigger] configurations@[k]),
                        x,
                    )) {
                    let k = choose|k: int| 0 <= k < n + 1 && (#[trigger] ids@[k])@ == x;
                    if k < n {
                        assert(listed(before, x));
                        let i = choose|i: int| 0 <= i < before.len() && (#[trigger] before[i])@
                            == x;
                        assert(w[i]@ == x);
                    } else {
                        assert(w[w.len() - 1]@ == x);
                    }
                }
            }
        }
    }
    proof {
        assert forall|id: Seq<char>| #[trigger] listed(missing@, id) <==> is_unavailable(
            s,
            configurations@,
            id,
        ) by {
            assert(listed(ids@, id) <==> exists|k: int|
                0 <= k < s.len() && (#[trigger] s[k]).config_id == id);
            if exists|k: int| 0 <= k < ids@.len() && (#[trigger] ids@[k])@ == id {
                assert(listed(ids@, id));
            }
            if listed(ids@, id) {
                let k = choose|k: int| 0 <= k < ids@.len() && (#[trigger] ids@[k])@ == id;
                assert(ids@[k]@ == id);
            }
        }
    }
    missing
}

/// The views of exported positions.
pub open spec fn position_views(positions: Seq<ExportPosition>) -> Seq<PredictionView> {
    Seq::new(positions.len(), |i: int| positions[i].position@)
}

/// The order of groups.
fn comes_before(a: &GroupKey, b: &GroupKey) -> (r: bool)
    ensures
        r == key_before(a@, b@),
{
    if !text::same(a.exchange.as_str(), b.exchange.as_str()) {
        text::before(a.exchange.as_str(), b.exchange.as_str())
    } else if !text::same(a.symbol.as_str(), b.symbol.as_str()) {
        text::before(a.symbol.as_str(), b.symbol.as_str())
    } else if !text::same(a.config_id.as_str(), b.config_id.as_str()) {
        text::before(a.config_id.as_str(), b.config_id.as_str())
    } else if !text::same(a.strategy.as_str(), b.strategy.as_str()) {
        text::before(a.strategy.as_str(), b.strategy.as_str())
    } else if a.horizon_secs != b.horizon_secs {
        a.horizon_secs < b.horizon_secs
    } else {
        text::before(a.direction.as_str(), b.direction.as_str())
    }
}

/// Whether two keys say the same.
fn same_key(a: &GroupKey, b: &GroupKey) -> (r: bool)
    ensures
        r == (a@ == b@),
{
    let r = text::same(a.exchange.as_str(), b.exchange.as_str()) && text::same(
        a.symbol.as_str(),
        b.symbol.as_str(),
    ) && text::same(a.config_id.as_str(), b.config_id.as_str()) && text::same(
        a.strategy.as_str(),
        b.strategy.as_str(),
    ) && a.horizon_secs == b.horizon_secs && text::same(
        a.direction.as_str(),
        b.direction.as_str(),
    );
    assert(r ==> a@ =~= b@);
    r
}

proof fn lemma_key_irreflexive(a: KeyView)
    ensures
        !key_before(a, a),
{
    lemma_precedes_irreflexive(a.direction);
}

proof fn lemma_key_total(a: KeyView, b: KeyView)
    ensures
        a == b || key_before(a, b) || key_before(b, a),
{
    lemma_precedes_total(a.exchange, b.exchange);
    lemma_precedes_total(a.symbol, b.symbol);
    lemma_precedes_total(a.config_id, b.config_id);
    lemma_precedes_total(a.strategy, b.strategy);
    lemma_precedes_total(a.direction, b.direction);
    if !key_before(a, b) && !key_before(b, a) {
        assert(a =~= b);
    }
}

proof fn lemma_text_chain(a: Seq<char>, b: Seq<char>, c: Seq<char>)
    ensures
        precedes(a, b) && precedes(b, c) ==> precedes(a, c) && a != c,
{
    if precedes(a, b) && precedes(b, c) {
        lemma_precedes_transitive(a, b, c);
        lemma_precedes_irreflexive(a);
    }
}

proof fn lemma_key_transitive(a: KeyView, b: KeyView, c: KeyView)
    requires
        key_before(a, b),
        key_before(b, c),
    ensures
        key_before(a, c),
{
    lemma_text_chain(a.exchange, b.exchange, c.exchange);
    lemma_text_chain(a.symbol, b.symbol, c.symbol);
    lemma_text_chain(a.config_id, b.config_id, c.config_id);
    lemma_text_chain(a.strategy, b.strategy, c.strategy);
    lemma_text_chain(a.direction, b.direction, c.direction);
}

/// The group of a position.
fn group_key(p: &Prediction) -> (r: GroupKey)
    ensures
        r@ == key_of(p@),
{
    GroupKey {
        exchange: p.exchange.name().to_owned(),
        symbol: p.symbol.clone(),
        config_id: p.config_id.clone(),
        strategy: p.strategy.clone(),
        horizon_secs: p.horizon_secs,
        direction: p.direction.clone(),
    }
}

/// A group without positions.
fn new_group(key: GroupKey) -> (r: GroupSummary)
    ensures
        r.key == key,
        sums_up(r, Seq::empty()),
{
    GroupSummary {
        key,
        counts: Counts::none(),
        net_win_rate_all_closed: None,
        net_win_rate_priced_closed: None,
        known_net_pnl_quote: Num::zero(),
        avg_known_net_bps: None,
        exit_reasons: Vec::new(),
        net_bps_sum: Num::zero(),
    }
}

/// Adds a position to its group.
fn join(group: &mut GroupSummary, p: &ExportPosition, Ghost(s): Ghost<Seq<PredictionView>>)
    requires
        sums_up(*old(group), s),
        s.len() < usize::MAX,
        p.consistent(),
    ensures
        final(group).key == old(group).key,
        sums_up(*final(group), s.push(p.position@)),
{
    let ghost v = p.position@;
    proof {
        lemma_counts_push(s, v);
        lemma_summed_step(s, v, is_priced(), known_gain());
        lemma_summed_step(s, v, is_priced(), known_bps());
    }
    let mut counts = group.counts;
    counts.add(p);
    group.counts = counts;
    note_reason(&mut group.exit_reasons, p.diagnosis.exit_reason.as_str(), Ghost(s), Ghost(v));
    if !text::same(p.diagnosis.outcome, "open") && !text::same(
        p.diagnosis.outcome,
        "unverifiable",
    ) {
        let gain = match p.diagnosis.net_pnl_quote {
            Some(x) => x,
            None => Num::zero(),
        };
        let bps = match p.position.pnl_bps {
            Some(x) => x,
            None => Num::zero(),
        };
        group.known_net_pnl_quote = group.known_net_pnl_quote.plus(gain);
        group.net_bps_sum = group.net_bps_sum.plus(bps);
    }
}

proof fn lemma_members_push(s: Seq<PredictionView>, p: PredictionView, key: KeyView)
    ensures
        members(s.push(p), key) == if key == key_of(p) {
            members(s, key).push(p)
        } else {
            members(s, key)
        },
{
    lemma_filter_push(s, p, |x: PredictionView| key_of(x) == key);
}

/// What a summary of one group more has to be, where the position has a group already.
proof fn lemma_joined(
    v: Seq<GroupSummary>,
    s: Seq<PredictionView>,
    p: PredictionView,
    at: int,
    g: GroupSummary,
)
    requires
        groups_cover(v, s),
        0 <= at < v.len(),
        v[at].key@ == key_of(p),
        g.key == v[at].key,
        sums_up(g, members(s, key_of(p)).push(p)),
    ensures
        groups_cover(v.update(at, g), s.push(p)),
{
    let w = v.update(at, g);
    let t = s.push(p);
    assert forall|i: int, j: int| 0 <= i < j < w.len() implies key_before(
        (#[trigger] w[i]).key@,
        (#[trigger] w[j]).key@,
    ) by {
        assert(w[i].key == v[i].key && w[j].key == v[j].key);
    }
    assert forall|i: int| 0 <= i < w.len() implies sums_up(
        #[trigger] w[i],
        members(t, w[i].key@),
    ) && members(t, w[i].key@).len() > 0 by {
        lemma_members_push(s, p, w[i].key@);
        if i != at {
            assert(w[i] == v[i]);
            lemma_key_irreflexive(v[i].key@);
            if i < at {
                assert(key_before(v[i].key@, v[at].key@));
            } else {
                assert(key_before(v[at].key@, v[i].key@));
            }
        }
    }
    assert forall|k: int| 0 <= k < t.len() implies has_key(
        w,
        key_of(#[trigger] t[k]),
    ) by {
        if k < s.len() {
            assert(t[k] == s[k]);
            assert(has_key(v, key_of(s[k])));
            let i = choose|i: int| 0 <= i < v.len() && (#[trigger] v[i]).key@ == key_of(s[k]);
            assert(w[i].key == v[i].key);
        } else {
            assert(w[at].key@ == key_of(p));
        }
    }
}

/// What a summary of one group more has to be, where the position is the first of its group.
proof fn lemma_founded(
    v: Seq<GroupSummary>,
    s: Seq<PredictionView>,
    p: PredictionView,
    at: int,
    g: GroupSummary,
)
    requires
        groups_cover(v, s),
        0 <= at <= v.len(),
        forall|i: int| 0 <= i < at ==> key_before((#[trigger] v[i]).key@, key_of(p)),
        forall|i: int| at <= i < v.len() ==> key_before(key_of(p), (#[trigger] v[i]).key@),
        g.key@ == key_of(p),
        sums_up(g, members(s, key_of(p)).push(p)),
    ensures
        groups_cover(v.insert(at, g), s.push(p)),
{
    let w = v.insert(at, g);
    let t = s.push(p);
    assert forall|i: int, j: int| 0 <= i < j < w.len() implies key_before(
        (#[trigger] w[i]).key@,
        (#[trigger] w[j]).key@,
    ) by {
        if i < at {
            assert(w[i] == v[i]);
        } else if i > at {
            assert(w[i] == v[i - 1]);
        }
        if j < at {
            assert(w[j] == v[j]);
        } else if j > at {
            assert(w[j] == v[j - 1]);
        }
    }
    assert forall|i: int| 0 <= i < w.len() implies sums_up(
        #[trigger] w[i],
        members(t, w[i].key@),
    ) && members(t, w[i].key@).len() > 0 by {
        lemma_members_push(s, p, w[i].key@);
        lemma_key_irreflexive(key_of(p));
        if i < at {
            assert(w[i] == v[i]);
        } else if i > at {
            assert(w[i] == v[i - 1]);
        }
    }
    assert forall|k: int| 0 <= k < t.len() implies has_key(
        w,
        key_of(#[trigger] t[k]),
    ) by {
        if k < s.len() {
            assert(t[k] == s[k]);
            assert(has_key(v, key_of(s[k])));
            let i = choose|i: int| 0 <= i < v.len() && (#[trigger] v[i]).key@ == key_of(s[k]);
            if i < at {
                assert(w[i] == v[i]);
            } else {
                assert(w[i + 1] == v[i]);
            }
        } else {
            assert(w[at].key@ == key_of(p));
        }
    }
}

/// How many positions groups have together.
pub open spec fn sizes(groups: Seq<GroupSummary>, s: Seq<PredictionView>) -> nat
    decreases groups.len(),
{
    if groups.len() == 0 {
        0
    } else {
        sizes(groups.drop_last(), s) + members(s, groups.last().key@).len()
    }
}

/// How many groups have that key.
spec fn of_key(groups: Seq<GroupSummary>, key: KeyView) -> nat
    decreases groups.len(),
{
    if groups.len() == 0 {
        0
    } else {
        of_key(groups.drop_last(), key) + (if groups.last().key@ == key {
            1nat
        } else {
            0nat
        })
    }
}

proof fn lemma_sizes_push(groups: Seq<GroupSummary>, s: Seq<PredictionView>, p: PredictionView)
    ensures
        sizes(groups, s.push(p)) == sizes(groups, s) + of_key(groups, key_of(p)),
    decreases groups.len(),
{
    if groups.len() > 0 {
        lemma_sizes_push(groups.drop_last(), s, p);
        lemma_members_push(s, p, groups.last().key@);
    }
}

proof fn lemma_key_once(groups: Seq<GroupSummary>, key: KeyView)
    requires
        forall|i: int, j: int|
            0 <= i < j < groups.len() ==> key_before(
                (#[trigger] groups[i]).key@,
                (#[trigger] groups[j]).key@,
            ),
    ensures
        of_key(groups, key) == if has_key(groups, key) {
            1nat
        } else {
            0nat
        },
    decreases groups.len(),
{
    if groups.len() > 0 {
        let rest = groups.drop_last();
        let end = groups.len() - 1;
        lemma_key_once(rest, key);
        if has_key(rest, key) {
            let i = choose|i: int| 0 <= i < rest.len() && (#[trigger] rest[i]).key@ == key;
            assert(groups[i].key@ == key);
            assert(key_before(groups[i].key@, groups[end].key@));
            lemma_key_irreflexive(key);
        } else if has_key(groups, key) {
            let i = choose|i: int| 0 <= i < groups.len() && (#[trigger] groups[i]).key@ == key;
            if i < end {
                assert(rest[i].key@ == key);
            }
        } else {
            assert(groups[end].key@ != key);
        }
    }
}

proof fn lemma_sizes(groups: Seq<GroupSummary>, s: Seq<PredictionView>)
    requires
        forall|i: int, j: int|
            0 <= i < j < groups.len() ==> key_before(
                (#[trigger] groups[i]).key@,
                (#[trigger] groups[j]).key@,
            ),
        forall|k: int| 0 <= k < s.len() ==> has_key(groups, key_of(#[trigger] s[k])),
    ensures
        sizes(groups, s) == s.len(),
    decreases s.len(),
{
    if s.len() == 0 {
        lemma_sizes_empty(groups);
        assert(s =~= Seq::<PredictionView>::empty());
    } else {
        let rest = s.drop_last();
        assert(s =~= rest.push(s.last()));
        assert forall|k: int| 0 <= k < rest.len() implies has_key(
            groups,
            key_of(#[trigger] rest[k]),
        ) by {
            assert(rest[k] == s[k]);
        }
        lemma_sizes(groups, rest);
        lemma_sizes_push(groups, rest, s.last());
        assert(has_key(groups, key_of(s[s.len() - 1])));
        lemma_key_once(groups, key_of(s.last()));
    }
}

proof fn lemma_sizes_empty(groups: Seq<GroupSummary>)
    ensures
        sizes(groups, Seq::empty()) == 0,
    decreases groups.len(),
{
    if groups.len() > 0 {
        lemma_sizes_empty(groups.drop_last());
        lemma_filter_len(
            Seq::empty(),
            |x: PredictionView| key_of(x) == groups.last().key@,
        );
    }
}

/// Every position is in one group and in no other: the groups of a report have together as many
/// positions as the report, and no two have the same key.
pub proof fn lemma_groups_partition(groups: Seq<GroupSummary>, s: Seq<PredictionView>)
    requires
        groups_cover(groups, s),
    ensures
        sizes(groups, s) == s.len(),
        forall|i: int, j: int|
            0 <= i < j < groups.len() ==> (#[trigger] groups[i]).key@ != (
            #[trigger] groups[j]).key@,
{
    lemma_sizes(groups, s);
    assert forall|i: int, j: int| 0 <= i < j < groups.len() implies (#[trigger] groups[i]).key@ != (
    #[trigger] groups[j]).key@ by {
        assert(key_before(groups[i].key@, groups[j].key@));
        lemma_key_irreflexive(groups[i].key@);
    }
}

/// Adds a position to the group it belongs to.
fn sort_into(
    groups: &mut Vec<GroupSummary>,
    p: &ExportPosition,
    Ghost(s): Ghost<Seq<PredictionView>>,
)
    requires
        groups_cover(old(groups)@, s),
        s.len() < usize::MAX,
        p.consistent(),
    ensures
        groups_cover(final(groups)@, s.push(p.position@)),
{
    let ghost v = groups@;
    let ghost pv = p.position@;
    let key = group_key(&p.position);
    let ghost kv = key@;
    let mut at: usize = 0;
    while at < groups.len() && comes_before(&groups[at].key, &key)
        invariant
            at <= groups@.len(),
            v == groups@,
            v == old(groups)@,
            kv == key@,
            forall|i: int| 0 <= i < at ==> key_before((#[trigger] v[i]).key@, kv),
        decreases groups@.len() - at,
    {
        at += 1;
    }
    let ghost of_key = members(s, kv);
    proof {
        lemma_filter_len(s, |x: PredictionView| key_of(x) == kv);
    }
    if at < groups.len() && same_key(&groups[at].key, &key) {
        let mut group = groups.remove(at);
        assert(group == v[at as int]);
        join(&mut group, p, Ghost(of_key));
        proof {
            lemma_joined(v, s, pv, at as int, group);
        }
        let ghost g = group;
        groups.insert(at, group);
        assert(groups@ =~= v.update(at as int, g));
    } else {
        proof {
            if at < v.len() {
                lemma_key_total(v[at as int].key@, kv);
            }
            assert forall|i: int| at <= i < v.len() implies key_before(
                kv,
                (#[trigger] v[i]).key@,
            ) by {
                if i > at {
                    assert(key_before(v[at as int].key@, v[i].key@));
                    lemma_key_transitive(kv, v[at as int].key@, v[i].key@);
                }
            }
            lemma_key_irreflexive(kv);
            assert forall|k: int| 0 <= k < s.len() implies key_of(#[trigger] s[k]) != kv by {
                assert(has_key(v, key_of(s[k])));
            let i = choose|i: int| 0 <= i < v.len() && (#[trigger] v[i]).key@ == key_of(s[k]);
                assert(v[i].key@ == key_of(s[k]));
            }
            assert(of_key =~= Seq::<PredictionView>::empty());
        }
        let mut group = new_group(key);
        join(&mut group, p, Ghost(of_key));
        proof {
            lemma_founded(v, s, pv, at as int, group);
        }
        groups.insert(at, group);
    }
}

/// A group with the rates that follow from its sums and counts.
fn rated(g: GroupSummary) -> (r: GroupSummary)
    ensures
        r.key == g.key,
        r.counts == g.counts,
        r.known_net_pnl_quote == g.known_net_pnl_quote,
        r.net_bps_sum == g.net_bps_sum,
        r.exit_reasons == g.exit_reasons,
        rates(r),
{
    let wins = Num::from_count(g.counts.profitable as u64);
    let closed = g.counts.closed;
    let priced = g.counts.priced_closed;
    GroupSummary {
        net_win_rate_all_closed: if closed > 0 {
            Some(wins.over(Num::from_count(closed as u64)))
        } else {
            None
        },
        net_win_rate_priced_closed: if priced > 0 {
            Some(wins.over(Num::from_count(priced as u64)))
        } else {
            None
        },
        avg_known_net_bps: if priced > 0 {
            Some(g.net_bps_sum.over(Num::from_count(priced as u64)))
        } else {
            None
        },
        key: g.key,
        counts: g.counts,
        known_net_pnl_quote: g.known_net_pnl_quote,
        exit_reasons: g.exit_reasons,
        net_bps_sum: g.net_bps_sum,
    }
}

/// Whether two summaries tell the same sums and counts of the same group.
spec fn same_sums(g: GroupSummary, o: GroupSummary) -> bool {
    &&& g.key == o.key
    &&& g.counts == o.counts
    &&& g.known_net_pnl_quote == o.known_net_pnl_quote
    &&& g.net_bps_sum == o.net_bps_sum
    &&& g.exit_reasons == o.exit_reasons
}

proof fn lemma_same_sums(v: Seq<GroupSummary>, w: Seq<GroupSummary>, s: Seq<PredictionView>)
    requires
        groups_cover(v, s),
        w.len() == v.len(),
        forall|i: int| 0 <= i < w.len() ==> same_sums(#[trigger] w[i], v[i]),
    ensures
        groups_cover(w, s),
{
    assert forall|i: int, j: int| 0 <= i < j < w.len() implies key_before(
        (#[trigger] w[i]).key@,
        (#[trigger] w[j]).key@,
    ) by {
        assert(same_sums(w[i], v[i]) && same_sums(w[j], v[j]));
        assert(key_before(v[i].key@, v[j].key@));
    }
    assert forall|i: int| 0 <= i < w.len() implies sums_up(
        #[trigger] w[i],
        members(s, w[i].key@),
    ) && members(s, w[i].key@).len() > 0 by {
        assert(same_sums(w[i], v[i]));
        assert(sums_up(v[i], members(s, v[i].key@)));
    }
    assert forall|k: int| 0 <= k < s.len() implies has_key(
        w,
        key_of(#[trigger] s[k]),
    ) by {
        assert(has_key(v, key_of(s[k])));
        let i = choose|i: int| 0 <= i < v.len() && (#[trigger] v[i]).key@ == key_of(s[k]);
        assert(same_sums(w[i], v[i]));
    }
}

/// Groups with their rates.
fn all_rated(groups: Vec<GroupSummary>, Ghost(s): Ghost<Seq<PredictionView>>) -> (r: Vec<
    GroupSummary,
>)
    requires
        groups_cover(groups@, s),
    ensures
        groups_cover(r@, s),
        forall|i: int| 0 <= i < r@.len() ==> rates(#[trigger] r@[i]),
{
    let ghost v = groups@;
    let mut rest = groups;
    let mut done: Vec<GroupSummary> = Vec::new();
    while rest.len() > 0
        invariant
            rest@.len() + done@.len() == v.len(),
            forall|i: int| 0 <= i < rest@.len() ==> #[trigger] rest@[i] == v[i],
            forall|i: int|
                0 <= i < done@.len() ==> {
                    let g = #[trigger] done@[i];
                    let o = v[v.len() - 1 - i];
                    &&& same_sums(g, o)
                    &&& rates(g)
                },
        decreases rest@.len(),
    {
        let g = rest.pop().unwrap();
        assert(g == v[rest@.len() as int]);
        done.push(rated(g));
    }
    let ghost back = done@;
    let mut out: Vec<GroupSummary> = Vec::new();
    while done.len() > 0
        invariant
            done@.len() + out@.len() == v.len(),
            back.len() == v.len(),
            forall|i: int| 0 <= i < done@.len() ==> #[trigger] done@[i] == back[i],
            forall|i: int| 0 <= i < out@.len() ==> #[trigger] out@[i] == back[v.len() - 1 - i],
        decreases done@.len(),
    {
        let g = done.pop().unwrap();
        assert(g == back[done@.len() as int]);
        out.push(g);
    }
    proof {
        let w = out@;
        assert forall|i: int| 0 <= i < w.len() implies {
            let g = #[trigger] w[i];
            &&& same_sums(g, v[i])
            &&& rates(g)
        } by {
            assert(w[i] == back[v.len() - 1 - i]);
            let g = back[v.len() - 1 - i];
            assert(same_sums(g, v[v.len() - 1 - (v.len() - 1 - i)]));
        }
        lemma_same_sums(v, w, s);
    }
    out
}

/// Positions with what their records show.
fn diagnose_all(positions: Vec<Prediction>) -> (r: Vec<ExportPosition>)
    requires
        forall|i: int| 0 <= i < positions@.len() ==> (#[trigger] positions@[i])@.timely(),
    ensures
        r@.len() == positions@.len(),
        forall|i: int|
            0 <= i < r@.len() ==> {
                &&& (#[trigger] r@[i]).position == positions@[i]
                &&& r@[i].consistent()
            },
{
    let ghost v = positions@;
    let mut rest = positions;
    let mut back: Vec<Prediction> = Vec::new();
    while rest.len() > 0
        invariant
            rest@.len() + back@.len() == v.len(),
            forall|i: int| 0 <= i < rest@.len() ==> #[trigger] rest@[i] == v[i],
            forall|i: int| 0 <= i < back@.len() ==> #[trigger] back@[i] == v[v.len() - 1 - i],
        decreases rest@.len(),
    {
        let p = rest.pop().unwrap();
        assert(p == v[rest@.len() as int]);
        back.push(p);
    }
    let ghost turned = back@;
    let mut out: Vec<ExportPosition> = Vec::new();
    while back.len() > 0
        invariant
            back@.len() + out@.len() == v.len(),
            turned.len() == v.len(),
            forall|i: int| 0 <= i < v.len() ==> (#[trigger] v[i])@.timely(),
            forall|i: int|
                0 <= i < turned.len() ==> #[trigger] turned[i] == v[v.len() - 1 - i],
            forall|i: int| 0 <= i < back@.len() ==> #[trigger] back@[i] == turned[i],
            forall|i: int|
                0 <= i < out@.len() ==> {
                    &&& (#[trigger] out@[i]).position == v[i]
                    &&& out@[i].consistent()
                },
        decreases back@.len(),
    {
        let p = back.pop().unwrap();
        assert(p == turned[back@.len() as int]);
        assert(p == v[out@.len() as int]);
        assert(v[out@.len() as int]@.timely());
        out.push(ExportPosition::from(p));
    }
    out
}

/// The report on an export, as of a given time.
pub fn report_at(snapshot: ExportSnapshot, filters: ExportFilters, generated_at: i64) -> (r:
    ExportReport)
    requires
        forall|i: int|
            0 <= i < snapshot.positions@.len() ==> (
            #[trigger] snapshot.positions@[i])@.timely(),
    ensures
        reports_all(
            r,
            snapshot.positions@,
            snapshot.configurations@,
            filters,
            generated_at,
        ),
{
    let ghost given = snapshot.positions@;
    let configurations = snapshot.configurations;
    let positions = diagnose_all(snapshot.positions);
    let ghost s = views(given);
    assert(position_views(positions@) =~= s);
    let count = positions.len();
    let mut counts = Counts::none();
    let mut groups: Vec<GroupSummary> = Vec::new();
    proof {
        assert(s.take(0) =~= Seq::<PredictionView>::empty());
    }
    for n in 0..count
        invariant
            count == positions@.len(),
            s == position_views(positions@),
            forall|i: int| 0 <= i < positions@.len() ==> (#[trigger] positions@[i]).consistent(),
            counts == counts_of(s.take(n as int)),
            groups_cover(groups@, s.take(n as int)),
    {
        let p = &positions[n];
        proof {
            assert(positions@[n as int].consistent());
            assert(s.take(n + 1) =~= s.take(n as int).push(p.position@));
            lemma_counts_push(s.take(n as int), p.position@);
        }
        counts.add(p);
        sort_into(&mut groups, p, Ghost(s.take(n as int)));
    }
    assert(s.take(count as int) =~= s);
    let groups = all_rated(groups, Ghost(s));
    let missing = unavailable(&positions, &configurations);
    ExportReport {
        schema_version: 1,
        kind: "market_lab_position_diagnostics",
        generated_at,
        filters,
        complete: true,
        position_count: count,
        counts,
        groups,
        configurations,
        unavailable_configuration_ids: missing,
        notes: NOTES,
        positions,
    }
}

/// The report on an export, as of now.
pub fn report(snapshot: ExportSnapshot, filters: ExportFilters) -> (r: ExportReport)
    requires
        forall|i: int|
            0 <= i < snapshot.positions@.len() ==> (
            #[trigger] snapshot.positions@[i])@.timely(),
    ensures
        reports_all(
            r,
            snapshot.positions@,
            snapshot.configurations@,
            filters,
            r.generated_at,
        ),
{
    report_at(snapshot, filters, now_ms())
}

/// What rates are of: gains among all closed positions, those with an unknown result among them; of
/// the other rate and of the mean, only those with a known result.
pub proof fn lemma_unknown_results_stay_in_the_denominator(
    g: GroupSummary,
    s: Seq<PredictionView>,
)
    requires
        sums_up(g, s),
        rates(g),
        s.len() <= usize::MAX,
    ensures
        g.counts.closed == g.counts.priced_closed + g.counts.unverifiable,
        g.counts.total == s.len(),
        g.counts.closed > 0 ==> g.net_win_rate_all_closed == Some(
            Num::from_count(g.counts.profitable as u64).over(
                Num::from_count((g.counts.priced_closed + g.counts.unverifiable) as u64),
            ),
        ),
        g.counts.priced_closed > 0 ==> g.net_win_rate_priced_closed == Some(
            Num::from_count(g.counts.profitable as u64).over(
                Num::from_count(g.counts.priced_closed as u64),
            ),
        ),
        g.counts.priced_closed > 0 ==> g.avg_known_net_bps == Some(
            g.net_bps_sum.over(Num::from_count(g.counts.priced_closed as u64)),
        ),
        g.counts.closed == 0 ==> g.net_win_rate_all_closed is None,
        g.counts.priced_closed == 0 ==> g.net_win_rate_priced_closed is None
            && g.avg_known_net_bps is None,
{
    lemma_counts_account_for_all(s);
}

} // verus!
