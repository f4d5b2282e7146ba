//! The experiment: strategies, configuration, execution costs and forward statistics.

pub mod identity;
pub mod ledger;

use crate::model::{views, Exchange, Prediction, PredictionStats, PredictionView};
use crate::num::decimal::{decimal, spec_decimal};
use crate::num::laws;
use crate::num::order;
use crate::num::Num;
use crate::text;
use ledger::{balance, drawdown, exit_order, peak, ref_views, summed, tally};
use vstd::prelude::*;

verus! {

/// How long positions are held at most, in seconds.
pub const HORIZONS: [i64; 4] = [60, 300, 900, 3600];

/// The strategies: identifier, name and description.
pub const STRATEGIES: [(&'static str, &'static str, &'static str); 6] = [
    (
        "flow_follow_v3",
        "Order-flow follow",
        "Follows aligned taker flow, book pressure and short momentum.",
    ),
    (
        "flow_reverse_v3",
        "Order-flow reverse",
        "Opposite-direction control using the same flow setup.",
    ),
    (
        "trend_pullback_v3",
        "Trend pullback",
        "Joins an efficient trend after a short pullback begins to recover.",
    ),
    (
        "breakout_v3",
        "Confirmed breakout",
        "Requires a five-minute breakout, volume expansion and aligned flow.",
    ),
    (
        "range_reversion_v3",
        "Range reversion",
        "Fades range extremes only after flow and acceleration turn inward.",
    ),
    (
        "consensus_v3",
        "Selective consensus",
        "Requires fresh peer agreement and cost-aware, non-overlapping historical analog evidence.",
    ),
];

/// Every material value of an experiment.
#[derive(Debug, Clone, Copy, PartialEq, Eq, Structural)]
pub struct LabConfig {
    pub engine_version: u32,
    pub risk_reward: Num,
    pub interval_secs: u64,
    pub lookback_hours: i64,
    pub max_points: i64,
    pub target_win_rate: Num,
    pub min_win_lower_bound: Num,
    pub min_edge_bps: Num,
    pub max_spread_bps: Num,
    pub min_analog_samples: usize,
    pub analog_neighbors: usize,
    pub cooldown_secs: i64,
    pub max_quote_age_ms: i64,
    pub max_gap_ms: i64,
    pub binance_fee_bps: Num,
    pub bybit_fee_bps: Num,
    pub slippage_bps: Num,
    pub notional: Num,
    pub initial_capital: Num,
    pub min_forward_trades: i64,
}

impl LabConfig {
    /// The configuration that applies where nothing is set.
    pub open spec fn spec_default() -> LabConfig {
        LabConfig {
            engine_version: 3,
            risk_reward: Num::from_int(3),
            interval_secs: 30,
            lookback_hours: 24,
            max_points: 750_000,
            target_win_rate: Num::ratio(80, 100),
            min_win_lower_bound: Num::ratio(55, 100),
            min_edge_bps: Num::from_int(2),
            max_spread_bps: Num::from_int(3),
            min_analog_samples: 24,
            analog_neighbors: 80,
            cooldown_secs: 180,
            max_quote_age_ms: 5_000,
            max_gap_ms: 15_000,
            binance_fee_bps: Num::from_int(10),
            bybit_fee_bps: Num::from_int(10),
            slippage_bps: Num::from_int(1),
            notional: Num::from_int(1_000),
            initial_capital: Num::from_int(10_000),
            min_forward_trades: 100,
        }
    }

    /// The configuration that settings give, every value held to its range.
    pub open spec fn configured(vars: Seq<(Seq<char>, Seq<char>)>) -> LabConfig {
        let d = LabConfig::spec_default();
        let initial_capital = setting(vars, "PAPER_INITIAL_CAPITAL"@, d.initial_capital).within(
            Num::from_int(100),
            Num::from_int(1_000_000),
        );
        let min_analog_samples = setting(vars, "MIN_ANALOG_SAMPLES"@, Num::from_int(24)).within(
            Num::from_int(8),
            Num::from_int(200),
        ).to_count();
        let max_quote_age_ms = setting(vars, "MAX_QUOTE_AGE_MS"@, Num::from_int(5_000)).within(
            Num::from_int(1_000),
            Num::from_int(10_000),
        ).to_int();
        LabConfig {
            engine_version: 3,
            risk_reward: d.risk_reward,
            interval_secs: setting(vars, "ANALYSIS_INTERVAL_SECS"@, Num::from_int(30)).within(
                Num::from_int(5),
                Num::from_int(3_600),
            ).to_count(),
            lookback_hours: setting(vars, "ANALYSIS_LOOKBACK_HOURS"@, Num::from_int(24)).within(
                Num::from_int(4),
                Num::from_int(168),
            ).to_int(),
            max_points: setting(vars, "ANALYSIS_MAX_POINTS"@, Num::from_int(750_000)).within(
                Num::from_int(50_000),
                Num::from_int(2_000_000),
            ).to_int(),
            target_win_rate: setting(
                vars,
                "TARGET_STRICT_WIN_RATE"@,
                d.target_win_rate,
            ).within(Num::ratio(26, 100), Num::ratio(99, 100)),
            min_win_lower_bound: setting(
                vars,
                "MIN_WIN_LOWER_BOUND"@,
                d.min_win_lower_bound,
            ).within(Num::ratio(25, 100), Num::ratio(95, 100)),
            min_edge_bps: setting(vars, "MIN_SIGNAL_EDGE_BPS"@, d.min_edge_bps).within(
                Num::zero(),
                Num::from_int(100),
            ),
            max_spread_bps: setting(vars, "MAX_SPREAD_BPS"@, d.max_spread_bps).within(
                Num::ratio(1, 10),
                Num::from_int(50),
            ),
            min_analog_samples: min_analog_samples as usize,
            analog_neighbors: setting(vars, "ANALOG_NEIGHBORS"@, Num::from_int(80)).within(
                Num::from_count(min_analog_samples),
                Num::from_int(250),
            ).to_count() as usize,
            cooldown_secs: setting(vars, "REENTRY_COOLDOWN_SECS"@, Num::from_int(180)).within(
                Num::zero(),
                Num::from_int(3_600),
            ).to_int(),
            max_quote_age_ms,
            max_gap_ms: setting(vars, "MAX_DATA_GAP_MS"@, Num::from_int(15_000)).within(
                Num::from_int(max_quote_age_ms),
                Num::from_int(60_000),
            ).to_int(),
            binance_fee_bps: setting(vars, "BINANCE_TAKER_FEE_BPS"@, d.binance_fee_bps).within(
                Num::zero(),
                Num::from_int(100),
            ),
            bybit_fee_bps: setting(vars, "BYBIT_TAKER_FEE_BPS"@, d.bybit_fee_bps).within(
                Num::zero(),
                Num::from_int(100),
            ),
            slippage_bps: setting(vars, "PAPER_SLIPPAGE_BPS"@, d.slippage_bps).within(
                Num::zero(),
                Num::from_int(100),
            ),
            notional: setting(vars, "PAPER_NOTIONAL"@, d.notional).within(
                Num::from_int(10),
                initial_capital.over(Num::from_int(2)),
            ),
            initial_capital,
            min_forward_trades: 100,
        }
    }

    /// The configuration that named settings give. A setting that is missing, no number or not
    /// finite counts as its default; every value is held to its range.
    pub fn from_env(vars: &Vec<(String, String)>) -> (r: LabConfig)
        ensures
            r == LabConfig::configured(setting_views(vars@)),
    {
        let mut c = LabConfig::default();
        c.interval_secs =
        env_num(vars, "ANALYSIS_INTERVAL_SECS", Num::from_int(30)).within(
            Num::from_int(5),
            Num::from_int(3_600),
        ).to_count();
        c.lookback_hours =
        env_num(vars, "ANALYSIS_LOOKBACK_HOURS", Num::from_int(24)).within(
            Num::from_int(4),
            Num::from_int(168),
        ).to_int();
        c.max_points =
        env_num(vars, "ANALYSIS_MAX_POINTS", Num::from_int(750_000)).within(
            Num::from_int(50_000),
            Num::from_int(2_000_000),
        ).to_int();
        c.target_win_rate =
        env_num(vars, "TARGET_STRICT_WIN_RATE", c.target_win_rate).within(
            Num::ratio(26, 100),
            Num::ratio(99, 100),
        );
        c.min_win_lower_bound =
        env_num(vars, "MIN_WIN_LOWER_BOUND", c.min_win_lower_bound).within(
            Num::ratio(25, 100),
            Num::ratio(95, 100),
        );
        c.min_edge_bps =
        env_num(vars, "MIN_SIGNAL_EDGE_BPS", c.min_edge_bps).within(
            Num::zero(),
            Num::from_int(100),
        );
        c.max_spread_bps =
        env_num(vars, "MAX_SPREAD_BPS", c.max_spread_bps).within(
            Num::ratio(1, 10),
            Num::from_int(50),
        );
        let samples = env_num(vars, "MIN_ANALOG_SAMPLES", Num::from_int(24)).within(
            Num::from_int(8),
            Num::from_int(200),
        ).to_count();
        c.min_analog_samples = samples as usize;
        c.analog_neighbors =
        env_num(vars, "ANALOG_NEIGHBORS", Num::from_int(80)).within(
            Num::from_count(samples),
            Num::from_int(250),
        ).to_count() as usize;
        c.cooldown_secs =
        env_num(vars, "REENTRY_COOLDOWN_SECS", Num::from_int(180)).within(
            Num::zero(),
            Num::from_int(3_600),
        ).to_int();
        c.max_quote_age_ms =
        env_num(vars, "MAX_QUOTE_AGE_MS", Num::from_int(5_000)).within(
            Num::from_int(1_000),
            Num::from_int(10_000),
        ).to_int();
        c.max_gap_ms =
        env_num(vars, "MAX_DATA_GAP_MS", Num::from_int(15_000)).within(
            Num::from_int(c.max_quote_age_ms),
            Num::from_int(60_000),
        ).to_int();
        c.binance_fee_bps =
        env_num(vars, "BINANCE_TAKER_FEE_BPS", c.binance_fee_bps).within(
            Num::zero(),
            Num::from_int(100),
        );
        c.bybit_fee_bps =
        env_num(vars, "BYBIT_TAKER_FEE_BPS", c.bybit_fee_bps).within(
            Num::zero(),
            Num::from_int(100),
        );
        c.slippage_bps =
        env_num(vars, "PAPER_SLIPPAGE_BPS", c.slippage_bps).within(
            Num::zero(),
            Num::from_int(100),
        );
        c.initial_capital =
        env_num(vars, "PAPER_INITIAL_CAPITAL", c.initial_capital).within(
            Num::from_int(100),
            Num::from_int(1_000_000),
        );
        c.notional =
        env_num(vars, "PAPER_NOTIONAL", c.notional).within(
            Num::from_int(10),
            c.initial_capital.over(Num::from_int(2)),
        );
        c
    }

    /// The taker fee of an exchange.
    pub open spec fn spec_fee(&self, exchange: Exchange) -> Num {
        match exchange {
            Exchange::Binance => self.binance_fee_bps,
            Exchange::Bybit => self.bybit_fee_bps,
        }
    }

    /// The taker fee of an exchange.
    #[verifier::when_used_as_spec(spec_fee)]
    pub fn fee(&self, exchange: Exchange) -> (r: Num)
        ensures
            r == self.spec_fee(exchange),
    {
        match exchange {
            Exchange::Binance => self.binance_fee_bps,
            Exchange::Bybit => self.bybit_fee_bps,
        }
    }

    /// The identifier of the configuration whose JSON text this is: a hash of the text, the same
    /// across restarts.
    pub fn id(json: &str) -> (r: String)
        ensures
            r@ == config_id(json@),
    {
        let bytes = json.as_bytes();
        let mut hash: u64 = 0xcbf29ce484222325;
        let ghost all = vstd::utf8::encode_utf8(json@);
        for n in 0..bytes.len()
            invariant
                bytes@ == all,
                hash == fnv(all.take(n as int)),
        {
            assert(all.take(n + 1).drop_last() =~= all.take(n as int));
            hash = (hash ^ bytes[n] as u64).wrapping_mul(0x100000001b3);
        }
        assert(all.take(all.len() as int) =~= all);
        "v3-".to_owned().concat(text::hex(hash).as_str())
    }
}

/// The FNV-1a hash of bytes, in 64 bits.
pub open spec fn fnv(bytes: Seq<u8>) -> u64
    decreases bytes.len(),
{
    if bytes.len() == 0 {
        0xcbf29ce484222325
    } else {
        ((fnv(bytes.drop_last()) ^ bytes.last() as u64) as nat * 0x100000001b3
            % 0x1_0000_0000_0000_0000) as u64
    }
}

/// The identifier of a configuration, from its JSON text.
pub open spec fn config_id(json: Seq<char>) -> Seq<char> {
    "v3-"@ + text::hex_digits(fnv(vstd::utf8::encode_utf8(json)) as nat, 16)
}

impl Default for LabConfig {
    /// Research assumptions, not a claim about the fee tier of an account.
    fn default() -> (r: LabConfig)
        ensures
            r == LabConfig::spec_default(),
    {
        LabConfig {
            engine_version: 3,
            risk_reward: Num::from_int(3),
            interval_secs: 30,
            lookback_hours: 24,
            max_points: 750_000,
            target_win_rate: Num::ratio(80, 100),
            min_win_lower_bound: Num::ratio(55, 100),
            min_edge_bps: Num::from_int(2),
            max_spread_bps: Num::from_int(3),
            min_analog_samples: 24,
            analog_neighbors: 80,
            cooldown_secs: 180,
            max_quote_age_ms: 5_000,
            max_gap_ms: 15_000,
            binance_fee_bps: Num::from_int(10),
            bybit_fee_bps: Num::from_int(10),
            slippage_bps: Num::from_int(1),
            notional: Num::from_int(1_000),
            initial_capital: Num::from_int(10_000),
            min_forward_trades: 100,
        }
    }
}

/// Named texts, by their views.
pub open spec fn setting_views(vars: Seq<(String, String)>) -> Seq<(Seq<char>, Seq<char>)> {
    Seq::new(vars.len(), |i: int| (vars[i].0@, vars[i].1@))
}

/// The first text under a name.
pub open spec fn named(vars: Seq<(Seq<char>, Seq<char>)>, name: Seq<char>) -> Option<Seq<char>>
    decreases vars.len(),
{
    if vars.len() == 0 {
        None
    } else if vars[0].0 == name {
        Some(vars[0].1)
    } else {
        named(vars.drop_first(), name)
    }
}

/// The finite number that a setting spells, or the default.
pub open spec fn setting(
    vars: Seq<(Seq<char>, Seq<char>)>,
    name: Seq<char>,
    default: Num,
) -> Num {
    match named(vars, name) {
        Some(text) => match spec_decimal(text) {
            Some(x) => if x.is_finite() {
                x
            } else {
                default
            },
            None => default,
        },
        None => default,
    }
}

/// The first text under a name.
pub fn find_named<'a>(vars: &'a Vec<(String, String)>, name: &str) -> (r: Option<&'a String>)
    ensures
        match r {
            Some(text) => named(setting_views(vars@), name@) == Some(text@),
            None => named(setting_views(vars@), name@) is None,
        },
{
    let ghost all = setting_views(vars@);
    assert(all.skip(0) =~= all);
    for n in 0..vars.len()
        invariant
            all == setting_views(vars@),
            named(all.skip(n as int), name@) == named(all, name@),
    {
        assert(all.skip(n as int)[0] == all[n as int]);
        if text::same(vars[n].0.as_str(), name) {
            return Some(&vars[n].1);
        }
        assert(all.skip(n as int).drop_first() =~= all.skip(n + 1));
    }
    None
}

/// The finite number that a setting spells, or the default.
fn env_num(vars: &Vec<(String, String)>, name: &str, default: Num) -> (r: Num)
    ensures
        r == setting(setting_views(vars@), name@, default),
{
    match find_named(vars, name) {
        Some(text) => match decimal(text.as_str()) {
            Some(x) => if x.is_finite() {
                x
            } else {
                default
            },
            None => default,
        },
        None => default,
    }
}

/// Settings cannot take the lab out of its ranges.
pub proof fn lemma_configuration_in_range(vars: Seq<(Seq<char>, Seq<char>)>)
    ensures
        ({
            let c = LabConfig::configured(vars);
            &&& 5 <= c.interval_secs <= 3_600
            &&& 4 <= c.lookback_hours <= 168
            &&& 50_000 <= c.max_points <= 2_000_000
            &&& 8 <= c.min_analog_samples <= 200
            &&& c.min_analog_samples <= c.analog_neighbors <= 250
            &&& 0 <= c.cooldown_secs <= 3_600
            &&& 1_000 <= c.max_quote_age_ms <= 10_000
            &&& c.max_quote_age_ms <= c.max_gap_ms <= 60_000
        }),
{
    lemma_setting_in_range(vars, "ANALYSIS_INTERVAL_SECS"@, 30, 5, 3_600);
    lemma_setting_in_range(vars, "ANALYSIS_LOOKBACK_HOURS"@, 24, 4, 168);
    lemma_setting_in_range(vars, "ANALYSIS_MAX_POINTS"@, 750_000, 50_000, 2_000_000);
    lemma_setting_in_range(vars, "MIN_ANALOG_SAMPLES"@, 24, 8, 200);
    let c = LabConfig::configured(vars);
    let samples = setting(vars, "MIN_ANALOG_SAMPLES"@, Num::from_int(24)).within(
        Num::from_int(8),
        Num::from_int(200),
    ).to_count();
    assert(Num::from_count(samples) == Num::from_int(samples as i64)) by {
        reveal(Num::spec_from_count);
        reveal(Num::spec_from_int);
    }
    lemma_setting_in_range(vars, "ANALOG_NEIGHBORS"@, 80, samples as i64, 250);
    laws::lemma_whole_exact(0);
    assert(Num::from_int(0) == Num::zero()) by {
        reveal(Num::spec_from_int);
        vstd::arithmetic::power2::lemma_pow2_pos(1074);
        crate::num::round::lemma_nearest_of_units(0, 1);
    }
    lemma_setting_in_range(vars, "REENTRY_COOLDOWN_SECS"@, 180, 0, 3_600);
    lemma_setting_in_range(vars, "MAX_QUOTE_AGE_MS"@, 5_000, 1_000, 10_000);
    lemma_setting_in_range(vars, "MAX_DATA_GAP_MS"@, 15_000, c.max_quote_age_ms, 60_000);
}

/// The finite number that a setting spells, where there is one.
pub open spec fn spelled(vars: Seq<(Seq<char>, Seq<char>)>, name: Seq<char>) -> Option<Num> {
    match named(vars, name) {
        Some(text) => match spec_decimal(text) {
            Some(x) => if x.is_finite() {
                Some(x)
            } else {
                None
            },
            None => None,
        },
        None => None,
    }
}

/// Whether a value is the one that a setting spells, held to its range, or the default where the
/// setting spells none.
pub open spec fn is_taken(
    value: Num,
    vars: Seq<(Seq<char>, Seq<char>)>,
    name: Seq<char>,
    default: Num,
    low: Num,
    high: Num,
) -> bool {
    match spelled(vars, name) {
        Some(x) => {
            &&& low.le(x) && x.le(high) ==> value == x
            &&& x.lt(low) ==> value == low
            &&& low.le(x) && high.lt(x) ==> value == high
        },
        None => low.le(default) && default.le(high) ==> value == default,
    }
}

proof fn lemma_taken(
    vars: Seq<(Seq<char>, Seq<char>)>,
    name: Seq<char>,
    default: Num,
    low: Num,
    high: Num,
)
    ensures
        is_taken(setting(vars, name, default).within(low, high), vars, name, default, low, high),
        low.le(high) && default.is_finite() ==> low.le(
            setting(vars, name, default).within(low, high),
        ) && setting(vars, name, default).within(low, high).le(high),
{
}

/// Every setting is taken for what it is the setting of, as spelled where it is within its range,
/// at the nearer end of the range otherwise, and at its default where it spells no number. Costs
/// are between zero and a hundred basis points. The notional is at most half of the capital. The
/// reward is always three times the risk.
pub proof fn lemma_settings_are_taken(vars: Seq<(Seq<char>, Seq<char>)>)
    ensures
        ({
            let c = LabConfig::configured(vars);
            let zero = Num::zero();
            let hundred = Num::from_int(100);
            &&& is_taken(
                c.binance_fee_bps,
                vars,
                "BINANCE_TAKER_FEE_BPS"@,
                Num::from_int(10),
                zero,
                hundred,
            )
            &&& is_taken(
                c.bybit_fee_bps,
                vars,
                "BYBIT_TAKER_FEE_BPS"@,
                Num::from_int(10),
                zero,
                hundred,
            )
            &&& is_taken(
                c.slippage_bps,
                vars,
                "PAPER_SLIPPAGE_BPS"@,
                Num::from_int(1),
                zero,
                hundred,
            )
            &&& is_taken(
                c.min_edge_bps,
                vars,
                "MIN_SIGNAL_EDGE_BPS"@,
                Num::from_int(2),
                zero,
                hundred,
            )
            &&& is_taken(
                c.max_spread_bps,
                vars,
                "MAX_SPREAD_BPS"@,
                Num::from_int(3),
                Num::ratio(1, 10),
                Num::from_int(50),
            )
            &&& is_taken(
                c.target_win_rate,
                vars,
                "TARGET_STRICT_WIN_RATE"@,
                Num::ratio(80, 100),
                Num::ratio(26, 100),
                Num::ratio(99, 100),
            )
            &&& is_taken(
                c.min_win_lower_bound,
                vars,
                "MIN_WIN_LOWER_BOUND"@,
                Num::ratio(55, 100),
                Num::ratio(25, 100),
                Num::ratio(95, 100),
            )
            &&& is_taken(
                c.initial_capital,
                vars,
                "PAPER_INITIAL_CAPITAL"@,
                Num::from_int(10_000),
                hundred,
                Num::from_int(1_000_000),
            )
            &&& is_taken(
                c.notional,
                vars,
                "PAPER_NOTIONAL"@,
                Num::from_int(1_000),
                Num::from_int(10),
                c.initial_capital.over(Num::from_int(2)),
            )
            &&& exists|x: Num|
                #![auto]
                is_taken(
                    x,
                    vars,
                    "REENTRY_COOLDOWN_SECS"@,
                    Num::from_int(180),
                    zero,
                    Num::from_int(3_600),
                ) && c.cooldown_secs == x.to_int()
            &&& exists|x: Num|
                #![auto]
                is_taken(
                    x,
                    vars,
                    "ANALYSIS_LOOKBACK_HOURS"@,
                    Num::from_int(24),
                    Num::from_int(4),
                    Num::from_int(168),
                ) && c.lookback_hours == x.to_int()
            &&& exists|x: Num|
                #![auto]
                is_taken(
                    x,
                    vars,
                    "ANALYSIS_MAX_POINTS"@,
                    Num::from_int(750_000),
                    Num::from_int(50_000),
                    Num::from_int(2_000_000),
                ) && c.max_points == x.to_int()
            &&& exists|x: Num|
                #![auto]
                is_taken(
                    x,
                    vars,
                    "ANALYSIS_INTERVAL_SECS"@,
                    Num::from_int(30),
                    Num::from_int(5),
                    Num::from_int(3_600),
                ) && c.interval_secs == x.to_count()
            &&& exists|x: Num|
                #![auto]
                is_taken(
                    x,
                    vars,
                    "MAX_QUOTE_AGE_MS"@,
                    Num::from_int(5_000),
                    Num::from_int(1_000),
                    Num::from_int(10_000),
                ) && c.max_quote_age_ms == x.to_int()
            &&& exists|x: Num|
                #![auto]
                is_taken(
                    x,
                    vars,
                    "MAX_DATA_GAP_MS"@,
                    Num::from_int(15_000),
                    Num::from_int(c.max_quote_age_ms),
                    Num::from_int(60_000),
                ) && c.max_gap_ms == x.to_int()
            &&& c.risk_reward == Num::from_int(3)
            &&& c.engine_version == 3
            &&& c.min_forward_trades == 100
            &&& zero.le(c.binance_fee_bps) && c.binance_fee_bps.le(hundred)
            &&& zero.le(c.bybit_fee_bps) && c.bybit_fee_bps.le(hundred)
            &&& zero.le(c.slippage_bps) && c.slippage_bps.le(hundred)
            &&& zero.le(c.min_edge_bps) && c.min_edge_bps.le(hundred)
        }),
{
    let c = LabConfig::configured(vars);
    let zero = Num::zero();
    let hundred = Num::from_int(100);
    laws::lemma_whole_order(10, 100);
    laws::lemma_whole_order(1, 100);
    laws::lemma_whole_order(2, 100);
    laws::lemma_whole_order(100, 100);
    lemma_taken(vars, "BINANCE_TAKER_FEE_BPS"@, Num::from_int(10), zero, hundred);
    lemma_taken(vars, "BYBIT_TAKER_FEE_BPS"@, Num::from_int(10), zero, hundred);
    lemma_taken(vars, "PAPER_SLIPPAGE_BPS"@, Num::from_int(1), zero, hundred);
    lemma_taken(vars, "MIN_SIGNAL_EDGE_BPS"@, Num::from_int(2), zero, hundred);
    lemma_taken(
        vars,
        "REENTRY_COOLDOWN_SECS"@,
        Num::from_int(180),
        zero,
        Num::from_int(3_600),
    );
    lemma_taken(
        vars,
        "ANALYSIS_LOOKBACK_HOURS"@,
        Num::from_int(24),
        Num::from_int(4),
        Num::from_int(168),
    );
    lemma_taken(
        vars,
        "ANALYSIS_MAX_POINTS"@,
        Num::from_int(750_000),
        Num::from_int(50_000),
        Num::from_int(2_000_000),
    );
    lemma_taken(
        vars,
        "ANALYSIS_INTERVAL_SECS"@,
        Num::from_int(30),
        Num::from_int(5),
        Num::from_int(3_600),
    );
    lemma_taken(
        vars,
        "MAX_QUOTE_AGE_MS"@,
        Num::from_int(5_000),
        Num::from_int(1_000),
        Num::from_int(10_000),
    );
    lemma_taken(
        vars,
        "MAX_DATA_GAP_MS"@,
        Num::from_int(15_000),
        Num::from_int(c.max_quote_age_ms),
        Num::from_int(60_000),
    );
}

proof fn lemma_setting_in_range(
    vars: Seq<(Seq<char>, Seq<char>)>,
    name: Seq<char>,
    default: i64,
    low: i64,
    high: i64,
)
    requires
        0 <= low <= high < 0x20_0000_0000_0000,
        0 <= default < 0x20_0000_0000_0000,
    ensures
        ({
            let x = setting(vars, name, Num::from_int(default)).within(
                Num::from_int(low),
                Num::from_int(high),
            );
            &&& low <= x.to_int() <= high
            &&& low <= x.to_count() <= high
        }),
{
    let x = setting(vars, name, Num::from_int(default));
    laws::lemma_whole_order(default, default);
    laws::lemma_whole_order(low, high);
    laws::lemma_whole_order(high, high);
    let y = x.within(Num::from_int(low), Num::from_int(high));
    laws::lemma_within(x, Num::from_int(low), Num::from_int(high));
    laws::lemma_whole_part(low);
    laws::lemma_whole_part(high);
    if y.is_negative() {
        // Only zero lies below zero's sign and not below a whole number.
        assert(y.magnitude() == 0);
        assert(Num::from_int(low).magnitude() == 0);
        laws::lemma_zero_parts(y);
        laws::lemma_zero_parts(Num::from_int(low));
    } else {
        laws::lemma_whole_part_order(Num::from_int(low), y);
        laws::lemma_whole_part_order(y, Num::from_int(high));
    }
}

/// Why a lane did or did not trade.
#[derive(Debug, Clone)]
pub struct LaneDiagnostic {
    pub strategy: String,
    pub horizon_secs: i64,
    pub reason: String,
}

/// What the last evaluation of an exchange found.
#[derive(Debug, Clone)]
pub struct Diagnostics {
    pub evaluated_at: Option<i64>,
    pub message: String,
    pub history_minutes: Num,
    pub history_truncated: bool,
    pub lanes: Vec<LaneDiagnostic>,
}

/// The statistics of one horizon of a strategy.
#[derive(Debug, Clone)]
pub struct HorizonReport {
    pub horizon_secs: i64,
    pub stats: PredictionStats,
}

/// The statistics of a strategy.
#[derive(Debug, Clone)]
pub struct StrategyReport {
    pub id: String,
    pub name: String,
    pub description: String,
    pub stats: PredictionStats,
    pub horizons: Vec<HorizonReport>,
}

impl Default for Diagnostics {
    /// Nothing evaluated.
    fn default() -> (r: Diagnostics)
        ensures
            r.evaluated_at is None,
            r.message@ == Seq::<char>::empty(),
            r.history_minutes == Num::zero(),
            !r.history_truncated,
            r.lanes@ == Seq::<LaneDiagnostic>::empty(),
    {
        Diagnostics {
            evaluated_at: None,
            message: String::new(),
            history_minutes: Num::zero(),
            history_truncated: false,
            lanes: Vec::new(),
        }
    }
}

/// The price at which a position is entered: the far side of the spread, moved by adverse
/// slippage.
pub open spec fn spec_entry_fill(direction: Seq<char>, bid: Num, ask: Num, slip_bps: Num) -> Num {
    if direction == "LONG"@ {
        ask.times(Num::one().plus(slip_bps.over(Num::from_int(10_000))))
    } else {
        bid.times(Num::one().minus(slip_bps.over(Num::from_int(10_000))))
    }
}

/// The price at which a position is left: a quoted price, moved by adverse slippage.
pub open spec fn spec_exit_fill(direction: Seq<char>, quote: Num, slip_bps: Num) -> Num {
    if direction == "LONG"@ {
        quote.times(Num::one().minus(slip_bps.over(Num::from_int(10_000))))
    } else {
        quote.times(Num::one().plus(slip_bps.over(Num::from_int(10_000))))
    }
}

/// What a position gains before fees, in basis points of the entry.
pub open spec fn gross_bps(direction: Seq<char>, entry: Num, exit: Num) -> Num {
    let ratio = exit.over(entry);
    (if direction == "LONG"@ {
        ratio.minus(Num::one())
    } else {
        Num::one().minus(ratio)
    }).times(Num::from_int(10_000))
}

/// What a position gains after fees on the entry and on the exit, in basis points of the entry.
pub open spec fn net_bps(direction: Seq<char>, entry: Num, exit: Num, fee_bps: Num) -> Num {
    gross_bps(direction, entry, exit).minus(
        fee_bps.times(Num::one().plus(exit.over(entry))),
    )
}

/// Entry crosses the spread; adverse slippage is applied separately on each leg.
pub fn entry_fill(direction: &str, bid: Num, ask: Num, slip_bps: Num) -> (r: Num)
    ensures
        r == spec_entry_fill(direction@, bid, ask, slip_bps),
{
    if text::same(direction, "LONG") {
        ask.times(Num::one().plus(slip_bps.over(Num::from_int(10_000))))
    } else {
        bid.times(Num::one().minus(slip_bps.over(Num::from_int(10_000))))
    }
}

/// The price at which a position is left: a quoted price, moved by adverse slippage.
pub fn exit_fill(direction: &str, quote: Num, slip_bps: Num) -> (r: Num)
    ensures
        r == spec_exit_fill(direction@, quote, slip_bps),
{
    if text::same(direction, "LONG") {
        quote.times(Num::one().minus(slip_bps.over(Num::from_int(10_000))))
    } else {
        quote.times(Num::one().plus(slip_bps.over(Num::from_int(10_000))))
    }
}

/// What a position gains before and after fees, in basis points of the entry. Fees are charged on
/// the entry and on the exit notional, for shorts too.
pub fn pnl(direction: &str, entry: Num, exit: Num, fee_bps: Num) -> (r: (Num, Num))
    ensures
        r.0 == gross_bps(direction@, entry, exit),
        r.1 == net_bps(direction@, entry, exit, fee_bps),
{
    let ratio = exit.over(entry);
    let change = if text::same(direction, "LONG") {
        ratio.minus(Num::one())
    } else {
        Num::one().minus(ratio)
    };
    let gross = change.times(Num::from_int(10_000));
    (gross, gross.minus(fee_bps.times(Num::one().plus(ratio))))
}

proof fn lemma_slippage_sign(slip_bps: Num)
    requires
        Num::zero().le(slip_bps),
    ensures
        Num::zero().le(slip_bps.over(Num::from_int(10_000))),
{
    laws::lemma_whole_order(1, 10_000);
    laws::lemma_whole_order(10_000, 10_000);
    laws::lemma_whole_one();
    laws::lemma_quotient_sign(slip_bps, Num::from_int(10_000));
}

/// Slippage is adverse on entry: a long position pays at least the ask, and a short one gets at
/// most the bid.
pub proof fn lemma_entry_slippage_is_adverse(bid: Num, ask: Num, slip_bps: Num)
    requires
        bid.is_positive(),
        ask.is_positive(),
        Num::zero().le(slip_bps),
    ensures
        ask.le(spec_entry_fill("LONG"@, bid, ask, slip_bps)),
        spec_entry_fill("SHORT"@, bid, ask, slip_bps).le(bid),
{
    reveal_strlit("LONG");
    reveal_strlit("SHORT");
    assert("LONG"@.len() != "SHORT"@.len());
    lemma_slippage_sign(slip_bps);
    let part = slip_bps.over(Num::from_int(10_000));
    laws::lemma_plus_grows(Num::one(), part);
    laws::lemma_times_grows(ask, Num::one().plus(part));
    laws::lemma_minus_shrinks(Num::one(), part);
    laws::lemma_times_shrinks(bid, Num::one().minus(part));
}

/// Slippage is adverse on exit: a long position gets at most the quoted price, and a short one
/// pays at least that.
pub proof fn lemma_exit_slippage_is_adverse(quote: Num, slip_bps: Num)
    requires
        quote.is_positive(),
        Num::zero().le(slip_bps),
    ensures
        spec_exit_fill("LONG"@, quote, slip_bps).le(quote),
        quote.le(spec_exit_fill("SHORT"@, quote, slip_bps)),
{
    reveal_strlit("LONG");
    reveal_strlit("SHORT");
    assert("LONG"@.len() != "SHORT"@.len());
    lemma_slippage_sign(slip_bps);
    let part = slip_bps.over(Num::from_int(10_000));
    laws::lemma_plus_grows(Num::one(), part);
    laws::lemma_times_grows(quote, Num::one().plus(part));
    laws::lemma_minus_shrinks(Num::one(), part);
    laws::lemma_times_shrinks(quote, Num::one().minus(part));
}

/// Fees never help: what is left after fees is at most what was there before.
pub proof fn lemma_fees_never_help(direction: Seq<char>, entry: Num, exit: Num, fee_bps: Num)
    requires
        entry.is_positive(),
        exit.is_positive(),
        Num::zero().le(fee_bps),
        Num::one().plus(exit.over(entry)).is_finite(),
        gross_bps(direction, entry, exit).is_finite(),
    ensures
        net_bps(direction, entry, exit, fee_bps).le(gross_bps(direction, entry, exit)),
{
    laws::lemma_quotient_sign(exit, entry);
    laws::lemma_plus_grows(Num::one(), exit.over(entry));
    let both = Num::one().plus(exit.over(entry));
    laws::lemma_product_sign(fee_bps, both);
    laws::lemma_minus_shrinks(gross_bps(direction, entry, exit), fee_bps.times(both));
}

/// The result before fees has the sign of the move: a long position gains exactly where it is left
/// above its entry and loses exactly where it is left below, a short one the other way round, and
/// at the entry itself neither gains.
pub proof fn lemma_result_follows_the_price(entry: Num, exit: Num)
    requires
        entry.is_positive(),
        !exit.is_nan(),
    ensures
        Num::zero().lt(gross_bps("LONG"@, entry, exit)) <==> entry.lt(exit),
        gross_bps("LONG"@, entry, exit).lt(Num::zero()) <==> exit.lt(entry),
        Num::zero().lt(gross_bps("SHORT"@, entry, exit)) <==> exit.lt(entry),
        gross_bps("SHORT"@, entry, exit).lt(Num::zero()) <==> entry.lt(exit),
        exit == entry ==> gross_bps("LONG"@, entry, exit).same(Num::zero()),
        exit == entry ==> gross_bps("SHORT"@, entry, exit).same(Num::zero()),
{
    reveal_strlit("LONG");
    reveal_strlit("SHORT");
    assert("LONG"@.len() != "SHORT"@.len());
    laws::lemma_whole_order(1, 10_000);
    laws::lemma_whole_order(10_000, 10_000);
    laws::lemma_whole_one();
    let one = Num::one();
    let ratio = exit.over(entry);
    let all = Num::from_int(10_000);
    order::lemma_over_sides(exit, entry);
    if entry.lt(exit) {
        order::lemma_minus_strict(one, ratio);
    } else if exit.lt(entry) {
        order::lemma_minus_strict(ratio, one);
    } else {
        assert(exit == entry);
        laws::lemma_quotient_at_most_one(exit, entry);
        laws::lemma_quotient_at_least_one(exit, entry);
        laws::lemma_minus_order(ratio, one);
        laws::lemma_minus_order(one, ratio);
        laws::lemma_negated_twice(ratio.minus(one));
        laws::lemma_negated_twice(one.minus(ratio));
        laws::lemma_product_sign(ratio.minus(one), all);
        laws::lemma_product_sign(one.minus(ratio), all);
        laws::lemma_product_keeps_sign(ratio.minus(one), ratio.minus(one).negated(), all);
        laws::lemma_product_keeps_sign(one.minus(ratio), one.minus(ratio).negated(), all);
    }
    order::lemma_times_keeps_side(ratio.minus(one), all);
    order::lemma_times_keeps_side(one.minus(ratio), all);
}

/// A better exit is a better result: a long position gains no less at a higher price, a short one
/// no less at a lower one.
pub proof fn lemma_better_exit_better_result(entry: Num, low: Num, high: Num)
    requires
        entry.is_positive(),
        low.le(high),
    ensures
        gross_bps("LONG"@, entry, low).le(gross_bps("LONG"@, entry, high)),
        gross_bps("SHORT"@, entry, high).le(gross_bps("SHORT"@, entry, low)),
{
    reveal_strlit("LONG");
    reveal_strlit("SHORT");
    assert("LONG"@.len() != "SHORT"@.len());
    laws::lemma_whole_order(1, 10_000);
    laws::lemma_whole_order(10_000, 10_000);
    laws::lemma_whole_one();
    let one = Num::one();
    let all = Num::from_int(10_000);
    let a = low.over(entry);
    let b = high.over(entry);
    order::lemma_over_monotone(low, high, entry);
    laws::lemma_minus_opposite(a, one);
    laws::lemma_minus_opposite(b, one);
    order::lemma_plus_commutes(a, one.negated());
    order::lemma_plus_commutes(b, one.negated());
    order::lemma_plus_monotone(one.negated(), a, b);
    order::lemma_minus_monotone(one, a, b);
    order::lemma_times_monotone(a.minus(one), b.minus(one), all);
    order::lemma_times_monotone(one.minus(b), one.minus(a), all);
}

/// Fees are paid on the entry and on the exit: what is left is at most the result before fees less
/// the fee of the entry alone, and with no fee it is that result.
pub proof fn lemma_fees_are_paid_twice(direction: Seq<char>, entry: Num, exit: Num, fee_bps: Num)
    requires
        entry.is_positive(),
        exit.is_positive(),
        fee_bps.is_finite(),
        !fee_bps.is_negative(),
        exit.over(entry).is_finite(),
        gross_bps(direction, entry, exit).is_finite(),
    ensures
        net_bps(direction, entry, exit, fee_bps).le(
            gross_bps(direction, entry, exit).minus(fee_bps),
        ),
        net_bps(direction, entry, exit, Num::zero()).same(gross_bps(direction, entry, exit)),
{
    let gross = gross_bps(direction, entry, exit);
    let ratio = exit.over(entry);
    let one = Num::one();
    laws::lemma_quotient_sign(exit, entry);
    laws::lemma_plus_grows(one, ratio);
    laws::lemma_one_more_is_finite(ratio);
    let both = one.plus(ratio);
    order::lemma_times_commutes(fee_bps, both);
    order::lemma_times_one(fee_bps);
    laws::lemma_product_sign(fee_bps, both);
    laws::lemma_minus_shrinks(gross, fee_bps);
    laws::lemma_minus_shrinks(gross, fee_bps.times(both));
    if fee_bps == Num::zero() {
        order::lemma_zero_times(both);
    } else {
        order::lemma_times_monotone(one, both, fee_bps);
    }
    order::lemma_minus_monotone(gross, fee_bps, fee_bps.times(both));
    order::lemma_zero_times(both);
    laws::lemma_minus_shrinks(gross, Num::zero());
    order::lemma_minus_zero(gross);
}

/// Entering and leaving on one and the same quote never earns anything: the spread and the
/// slippage are paid before fees, and the fees come on top. With no fee and an exit that is
/// infinitely many times the entry, which only a short position can have, what is left after fees
/// is not a number.
pub proof fn lemma_round_trip_never_earns(
    direction: Seq<char>,
    bid: Num,
    ask: Num,
    slip_bps: Num,
    fee_bps: Num,
)
    requires
        direction == "LONG"@ || direction == "SHORT"@,
        bid.is_positive(),
        ask.is_positive(),
        bid.le(ask),
        Num::zero().le(slip_bps),
        slip_bps.lt(Num::from_int(10_000)),
        Num::zero().le(fee_bps),
    ensures
        ({
            let entry = spec_entry_fill(direction, bid, ask, slip_bps);
            let quote = if direction == "LONG"@ {
                bid
            } else {
                ask
            };
            let exit = spec_exit_fill(direction, quote, slip_bps);
            let gross = gross_bps(direction, entry, exit);
            let net = net_bps(direction, entry, exit, fee_bps);
            &&& gross.le(Num::zero())
            &&& direction == "LONG"@ || Num::zero().lt(fee_bps) || exit.over(
                entry,
            ).is_finite() ==> net.le(gross)
        }),
{
    reveal_strlit("LONG");
    reveal_strlit("SHORT");
    assert("LONG"@.len() != "SHORT"@.len());
    let one = Num::one();
    let ten_thousand = Num::from_int(10_000);
    laws::lemma_whole_order(1, 10_000);
    laws::lemma_whole_order(10_000, 10_000);
    laws::lemma_whole_one();
    let part = slip_bps.over(ten_thousand);
    laws::lemma_quotient_at_most_one(slip_bps, ten_thousand);
    laws::lemma_minus_order(part, one);
    laws::lemma_minus_shrinks(one, part);
    lemma_entry_slippage_is_adverse(bid, ask, slip_bps);
    let entry = spec_entry_fill(direction, bid, ask, slip_bps);
    let ratio = if direction == "LONG"@ {
        lemma_exit_slippage_is_adverse(bid, slip_bps);
        let exit = spec_exit_fill(direction, bid, slip_bps);
        laws::lemma_product_sign(bid, one.minus(part));
        laws::lemma_quotient_at_most_one(exit, entry);
        laws::lemma_minus_order(exit.over(entry), one);
        exit.over(entry)
    } else {
        lemma_exit_slippage_is_adverse(ask, slip_bps);
        let exit = spec_exit_fill(direction, ask, slip_bps);
        laws::lemma_product_sign(bid, one.minus(part));
        laws::lemma_quotient_at_least_one(exit, entry);
        laws::lemma_minus_order(one, exit.over(entry));
        exit.over(entry)
    };
    let change = if direction == "LONG"@ {
        ratio.minus(one)
    } else {
        one.minus(ratio)
    };
    laws::lemma_negated_twice(change);
    laws::lemma_product_keeps_sign(change, change.negated(), ten_thousand);
    let gross = change.times(ten_thousand);
    if direction == "LONG"@ || Num::zero().lt(fee_bps) || ratio.is_finite() {
        laws::lemma_plus_grows(one, ratio);
        if ratio.is_finite() {
            laws::lemma_one_more_is_finite(ratio);
        }
        laws::lemma_product_sign(fee_bps, one.plus(ratio));
        laws::lemma_minus_shrinks(gross, fee_bps.times(one.plus(ratio)));
    }
}

/// What a long position gains before fees, a short one over the same prices loses, and the other
/// way round.
pub proof fn lemma_long_and_short_are_opposite(entry: Num, exit: Num)
    requires
        !exit.over(entry).is_nan(),
    ensures
        gross_bps("LONG"@, entry, exit).same(gross_bps("SHORT"@, entry, exit).negated()),
{
    reveal_strlit("LONG");
    reveal_strlit("SHORT");
    assert("LONG"@.len() != "SHORT"@.len());
    laws::lemma_whole_order(1, 10_000);
    laws::lemma_whole_order(10_000, 10_000);
    laws::lemma_whole_one();
    let ratio = exit.over(entry);
    laws::lemma_minus_opposite(ratio, Num::one());
    laws::lemma_product_keeps_sign(
        ratio.minus(Num::one()),
        Num::one().minus(ratio),
        Num::from_int(10_000),
    );
}

/// The 95% interval of Wilson for a rate of `wins` in `total`, within zero and one.
pub open spec fn spec_win_interval(wins: i64, total: i64) -> (Num, Num) {
    if total == 0 {
        (Num::zero(), Num::one())
    } else {
        let n = Num::from_int(total);
        let p = Num::from_int(wins).over(n);
        let z = Num::ratio(196, 100);
        let zz = z.times(z);
        let center = p.plus(zz.over(Num::from_int(2).times(n)));
        let spread = p.times(Num::one().minus(p)).plus(zz.over(Num::from_int(4).times(n)));
        let margin = z.times(spread.over(n).root());
        let denom = Num::one().plus(zz.over(n));
        (
            center.minus(margin).over(denom).larger(Num::zero()),
            center.plus(margin).over(denom).smaller(Num::one()),
        )
    }
}

/// The bounds of a rate are a rate: the lower one is never below zero, the upper one never above
/// one, and without any trade they say nothing.
pub proof fn lemma_interval_in_range(wins: i64, total: i64)
    ensures
        Num::zero().le(win_interval(wins, total).0),
        win_interval(wins, total).1.le(Num::one()),
        win_interval(wins, 0) == (Num::zero(), Num::one()),
{
}

/// The 95% interval of Wilson for a rate of `wins` in `total`, within zero and one.
#[verifier::when_used_as_spec(spec_win_interval)]
pub fn win_interval(wins: i64, total: i64) -> (r: (Num, Num))
    ensures
        r == spec_win_interval(wins, total),
{
    if total == 0 {
        return (Num::zero(), Num::one());
    }
    let n = Num::from_int(total);
    let p = Num::from_int(wins).over(n);
    let z = Num::ratio(196, 100);
    let zz = z.times(z);
    let center = p.plus(zz.over(Num::from_int(2).times(n)));
    let spread = p.times(Num::one().minus(p)).plus(zz.over(Num::from_int(4).times(n)));
    let margin = z.times(spread.over(n).root());
    let denom = Num::one().plus(zz.over(n));
    (
        center.minus(margin).over(denom).larger(Num::zero()),
        center.plus(margin).over(denom).smaller(Num::one()),
    )
}

/// The statistics of a group of positions that share a capital.
pub open spec fn stats_of(
    items: Seq<PredictionView>,
    capital: Num,
    config: LabConfig,
) -> PredictionStats {
    let done = exit_order(items);
    let resolved = done.len() as i64;
    let wins = tally(done, ledger::won()) as i64;
    let invalid = tally(done, ledger::unpriced()) as i64;
    let target_hits = tally(done, ledger::hit_target()) as i64;
    let with_result = tally(done, ledger::priced()) as i64;
    let net_pnl = summed(done, ledger::priced(), ledger::gain());
    let gross_profit = summed(done, ledger::won(), ledger::gain());
    let gross_loss = summed(done, ledger::lost(), ledger::loss());
    let unrealized = summed(items, ledger::marked(), ledger::mark_value());
    let interval = win_interval(wins, resolved);
    PredictionStats {
        total: items.len() as i64,
        resolved,
        wins,
        losses: tally(done, ledger::lost()) as i64,
        timeouts: tally(done, ledger::timed_out()) as i64,
        // Results that are not known stay in the denominator.
        win_rate: if resolved > 0 {
            Num::from_int(wins).over(Num::from_int(resolved))
        } else {
            Num::zero()
        },
        avg_pnl_bps: if with_result > 0 {
            summed(done, ledger::priced(), ledger::bps()).over(Num::from_int(with_result))
        } else {
            Num::zero()
        },
        open: tally(items, ledger::held()) as i64,
        unmarked_open: tally(items, ledger::unmarked()) as i64,
        invalid,
        breakeven: tally(done, ledger::flat()) as i64,
        target_hits,
        strict_win_rate: if resolved > 0 {
            Num::from_int(target_hits).over(Num::from_int(resolved))
        } else {
            Num::zero()
        },
        win_rate_low: interval.0,
        win_rate_high: interval.1,
        net_pnl,
        unrealized_pnl: unrealized,
        profit_factor: if Num::zero().lt(gross_loss) {
            Some(gross_profit.over(gross_loss))
        } else {
            None
        },
        gross_profit,
        gross_loss,
        closed_drawdown_pct: drawdown(done, capital),
        initial_capital: capital,
        return_pct: net_pnl.plus(unrealized).over(capital).times(Num::from_int(100)),
        sample_ready: resolved >= config.min_forward_trades && invalid == 0
            && config.target_win_rate.le(interval.0) && Num::zero().lt(net_pnl),
    }
}

/// The statistics of a group of positions that share a capital. Exits whose result is not known
/// remain in the denominator of the win rate.
pub fn stats(items: &[&Prediction], capital: Num, config: &LabConfig) -> (r: PredictionStats)
    requires
        items@.len() <= i64::MAX,
    ensures
        r == stats_of(ref_views(items@), capital, *config),
{
    let ghost all = ref_views(items@);
    let order = ledger::closed(items);
    let ghost done = ref_views(order@);
    proof {
        ledger::lemma_open_or_closed(all);
    }
    let hundred = Num::from_int(100);
    let ten_thousand = Num::from_int(10_000);
    let threshold = Num::ratio(1, 1_000_000);
    let mut timeouts: i64 = 0;
    let mut with_result: i64 = 0;
    let mut wins: i64 = 0;
    let mut losses: i64 = 0;
    let mut breakeven: i64 = 0;
    let mut target_hits: i64 = 0;
    let mut invalid: i64 = 0;
    let mut sum_bps = Num::zero();
    let mut net_pnl = Num::zero();
    let mut gross_profit = Num::zero();
    let mut gross_loss = Num::zero();
    let mut equity = capital;
    let mut top = capital;
    let mut fall = Num::zero();
    for n in 0..order.len()
        invariant
            done == ref_views(order@),
            done.len() <= i64::MAX,
            hundred == Num::from_int(100),
            ten_thousand == Num::from_int(10_000),
            threshold == Num::ratio(1, 1_000_000),
            timeouts == tally(done.take(n as int), ledger::timed_out()),
            with_result == tally(done.take(n as int), ledger::priced()),
            wins == tally(done.take(n as int), ledger::won()),
            losses == tally(done.take(n as int), ledger::lost()),
            breakeven == tally(done.take(n as int), ledger::flat()),
            target_hits == tally(done.take(n as int), ledger::hit_target()),
            invalid == tally(done.take(n as int), ledger::unpriced()),
            timeouts <= n,
            with_result <= n,
            wins <= n,
            losses <= n,
            breakeven <= n,
            target_hits <= n,
            invalid <= n,
            sum_bps == summed(done.take(n as int), ledger::priced(), ledger::bps()),
            net_pnl == summed(done.take(n as int), ledger::priced(), ledger::gain()),
            gross_profit == summed(done.take(n as int), ledger::won(), ledger::gain()),
            gross_loss == summed(done.take(n as int), ledger::lost(), ledger::loss()),
            equity == balance(done.take(n as int), capital),
            top == peak(done.take(n as int), capital),
            fall == drawdown(done.take(n as int), capital),
    {
        let p = order[n];
        assert(done.take(n + 1).drop_last() =~= done.take(n as int));
        assert(done.take(n + 1).last() == p@);
        if text::same(p.status.as_str(), "TIMEOUT") {
            timeouts += 1;
        }
        match p.pnl_bps {
            Some(net) => {
                with_result += 1;
                sum_bps = sum_bps.plus(net);
                let amount = p.notional.times(net).over(ten_thousand);
                net_pnl = net_pnl.plus(amount);
                if threshold.lt(net) {
                    wins += 1;
                    gross_profit = gross_profit.plus(amount);
                } else if net.lt(threshold.negated()) {
                    losses += 1;
                    gross_loss = gross_loss.minus(amount);
                } else {
                    breakeven += 1;
                }
                if text::same(p.status.as_str(), "WIN") && Num::zero().lt(net) {
                    target_hits += 1;
                }
                equity = equity.plus(amount);
                top = top.larger(equity);
                fall = fall.larger(top.minus(equity).over(top).times(hundred));
            },
            None => {
                invalid += 1;
            },
        }
    }
    assert(done.take(done.len() as int) =~= done);
    let mut open: i64 = 0;
    let mut unmarked_open: i64 = 0;
    let mut unrealized = Num::zero();
    for n in 0..items.len()
        invariant
            all == ref_views(items@),
            items@.len() <= i64::MAX,
            ten_thousand == Num::from_int(10_000),
            open == tally(all.take(n as int), ledger::held()),
            unmarked_open == tally(all.take(n as int), ledger::unmarked()),
            open <= n,
            unmarked_open <= n,
            unrealized == summed(all.take(n as int), ledger::marked(), ledger::mark_value()),
    {
        let p = items[n];
        assert(all.take(n + 1).drop_last() =~= all.take(n as int));
        assert(all.take(n + 1).last() == p@);
        if text::same(p.status.as_str(), "OPEN") {
            open += 1;
            match p.mark_price {
                Some(mark) => {
                    let fill = exit_fill(p.direction.as_str(), mark, p.slippage_bps);
                    let (_, net) = pnl(p.direction.as_str(), p.entry_price, fill, p.fee_bps);
                    unrealized = unrealized.plus(p.notional.times(net).over(ten_thousand));
                },
                None => {
                    unmarked_open += 1;
                },
            }
        }
    }
    assert(all.take(all.len() as int) =~= all);
    let resolved = order.len() as i64;
    let (low, high) = win_interval(wins, resolved);
    PredictionStats {
        total: items.len() as i64,
        resolved,
        wins,
        losses,
        timeouts,
        win_rate: if resolved > 0 {
            Num::from_int(wins).over(Num::from_int(resolved))
        } else {
            Num::zero()
        },
        avg_pnl_bps: if with_result > 0 {
            sum_bps.over(Num::from_int(with_result))
        } else {
            Num::zero()
        },
        open,
        unmarked_open,
        invalid,
        breakeven,
        target_hits,
        strict_win_rate: if resolved > 0 {
            Num::from_int(target_hits).over(Num::from_int(resolved))
        } else {
            Num::zero()
        },
        win_rate_low: low,
        win_rate_high: high,
        net_pnl,
        unrealized_pnl: unrealized,
        profit_factor: if Num::zero().lt(gross_loss) {
            Some(gross_profit.over(gross_loss))
        } else {
            None
        },
        gross_profit,
        gross_loss,
        closed_drawdown_pct: fall,
        initial_capital: capital,
        return_pct: net_pnl.plus(unrealized).over(capital).times(hundred),
        sample_ready: resolved >= config.min_forward_trades && invalid == 0
            && config.target_win_rate.le(low) && Num::zero().lt(net_pnl),
    }
}

/// Nothing disappears from the statistics: every position is open or resolved, and every resolved
/// one is a win, a loss, flat or of unknown result.
pub proof fn lemma_stats_account_for_all(
    items: Seq<PredictionView>,
    capital: Num,
    config: LabConfig,
)
    requires
        items.len() <= i64::MAX,
    ensures
        ({
            let s = stats_of(items, capital, config);
            &&& s.total == s.open + s.resolved
            &&& s.resolved == s.wins + s.losses + s.breakeven + s.invalid
            &&& 0 <= s.unmarked_open <= s.open
            &&& 0 <= s.timeouts <= s.resolved
            &&& 0 <= s.target_hits <= s.resolved
        }),
{
    let done = exit_order(items);
    ledger::lemma_open_or_closed(items);
    ledger::lemma_results_partition(done);
    ledger::lemma_marked_or_not(items);
    ledger::lemma_tally_bounded(done, ledger::timed_out());
    ledger::lemma_tally_bounded(done, ledger::hit_target());
}

/// A sample is marked ready only where enough positions closed, none of unknown result, with a
/// profit, and with the lower bound of the win rate at the target or above.
pub proof fn lemma_ready_sample_is_complete(
    items: Seq<PredictionView>,
    capital: Num,
    config: LabConfig,
)
    requires
        items.len() <= i64::MAX,
        stats_of(items, capital, config).sample_ready,
    ensures
        ({
            let s = stats_of(items, capital, config);
            &&& s.resolved >= config.min_forward_trades
            &&& s.invalid == 0
            &&& s.resolved == s.wins + s.losses + s.breakeven
            &&& config.target_win_rate.le(s.win_rate_low)
            &&& Num::zero().lt(s.net_pnl)
        }),
{
    lemma_stats_account_for_all(items, capital, config);
}

/// A sample is marked ready as soon as enough positions closed, none of unknown result, with a
/// profit, and with the lower bound of the win rate at the target or above.
pub proof fn lemma_complete_sample_is_ready(
    items: Seq<PredictionView>,
    capital: Num,
    config: LabConfig,
)
    requires
        ({
            let s = stats_of(items, capital, config);
            &&& s.resolved >= config.min_forward_trades
            &&& s.invalid == 0
            &&& config.target_win_rate.le(s.win_rate_low)
            &&& Num::zero().lt(s.net_pnl)
        }),
    ensures
        stats_of(items, capital, config).sample_ready,
{
}

/// How the figures of a group go together: rates are over all that closed, a profit factor stands
/// only beside losses and is above one only where profits are, and the return has the side of what
/// was gained and what is held.
pub proof fn lemma_figures_go_together(
    items: Seq<PredictionView>,
    capital: Num,
    config: LabConfig,
)
    requires
        capital.is_positive(),
    ensures
        ({
            let s = stats_of(items, capital, config);
            let gained = s.net_pnl.plus(s.unrealized_pnl);
            &&& s.initial_capital == capital
            &&& s.resolved > 0 ==> {
                &&& s.win_rate == Num::from_int(s.wins).over(Num::from_int(s.resolved))
                &&& s.strict_win_rate == Num::from_int(s.target_hits).over(
                    Num::from_int(s.resolved),
                )
            }
            &&& (s.win_rate_low, s.win_rate_high) == win_interval(s.wins, s.resolved)
            &&& s.profit_factor is Some <==> Num::zero().lt(s.gross_loss)
            &&& s.profit_factor is Some && s.gross_loss.is_finite() && s.gross_profit.is_finite()
                && Num::zero().le(s.gross_profit) ==> {
                &&& s.gross_profit.le(s.gross_loss) ==> s.profit_factor->0.le(Num::one())
                &&& s.gross_loss.le(s.gross_profit) ==> Num::one().le(s.profit_factor->0)
            }
            &&& Num::zero().le(gained) ==> Num::zero().le(s.return_pct)
            &&& gained.le(Num::zero()) ==> s.return_pct.le(Num::zero())
        }),
{
    let s = stats_of(items, capital, config);
    let gained = s.net_pnl.plus(s.unrealized_pnl);
    laws::lemma_whole_order(1, 100);
    laws::lemma_whole_order(100, 100);
    laws::lemma_whole_one();
    let part = gained.over(capital);
    order::lemma_zero_over(capital);
    order::lemma_zero_times(Num::from_int(100));
    if Num::zero().le(gained) {
        order::lemma_over_monotone(Num::zero(), gained, capital);
        order::lemma_times_monotone(Num::zero(), part, Num::from_int(100));
    }
    if gained.le(Num::zero()) {
        order::lemma_over_monotone(gained, Num::zero(), capital);
        order::lemma_times_monotone(part, Num::zero(), Num::from_int(100));
    }
    if s.profit_factor is Some && s.gross_loss.is_finite() && s.gross_profit.is_finite()
        && Num::zero().le(s.gross_profit) {
        if s.gross_profit.le(s.gross_loss) {
            laws::lemma_quotient_at_most_one(s.gross_profit, s.gross_loss);
        }
        if s.gross_loss.le(s.gross_profit) {
            laws::lemma_quotient_at_least_one(s.gross_profit, s.gross_loss);
        }
    }
}

/// The positions of a strategy.
pub open spec fn of_strategy(items: Seq<PredictionView>, id: Seq<char>) -> Seq<PredictionView> {
    items.filter(|p: PredictionView| p.strategy == id)
}

/// The positions of a strategy that are held for that long.
pub open spec fn of_lane(
    items: Seq<PredictionView>,
    id: Seq<char>,
    horizon: i64,
) -> Seq<PredictionView> {
    of_strategy(items, id).filter(|p: PredictionView| p.horizon_secs == horizon)
}

/// Whether a report holds the statistics of that strategy, in total and by horizon.
pub open spec fn reports_on(
    report: StrategyReport,
    strategy: (&str, &str, &str),
    items: Seq<PredictionView>,
    config: LabConfig,
) -> bool {
    &&& report.id@ == strategy.0@
    &&& report.name@ == strategy.1@
    &&& report.description@ == strategy.2@
    &&& report.stats == stats_of(
        of_strategy(items, strategy.0@),
        config.initial_capital.times(Num::from_int(4)),
        config,
    )
    &&& report.horizons@.len() == 4
    &&& forall|h: int|
        0 <= h < 4 ==> {
            &&& (#[trigger] report.horizons@[h]).horizon_secs == HORIZONS@[h]
            &&& report.horizons@[h].stats == stats_of(
                of_lane(items, strategy.0@, HORIZONS@[h]),
                config.initial_capital,
                config,
            )
        }
}

proof fn lemma_filter_step(
    s: Seq<PredictionView>,
    n: int,
    holds: spec_fn(PredictionView) -> bool,
)
    requires
        0 <= n < s.len(),
    ensures
        s.take(n + 1).filter(holds) == if holds(s[n]) {
            s.take(n).filter(holds).push(s[n])
        } else {
            s.take(n).filter(holds)
        },
{
    reveal(Seq::filter);
    assert(s.take(n + 1).drop_last() =~= s.take(n));
}

/// The positions of a strategy.
pub fn strategy_items<'a>(items: &'a [Prediction], id: &str) -> (r: Vec<&'a Prediction>)
    ensures
        ref_views(r@) == of_strategy(views(items@), id@),
        r@.len() <= items@.len(),
{
    let ghost all = views(items@);
    let ghost holds = |p: PredictionView| p.strategy == id@;
    let mut r: Vec<&'a Prediction> = Vec::new();
    proof {
        reveal(Seq::filter);
        assert(ref_views(r@) =~= all.take(0).filter(holds));
    }
    for n in 0..items.len()
        invariant
            all == views(items@),
            holds == (|p: PredictionView| p.strategy == id@),
            ref_views(r@) == all.take(n as int).filter(holds),
            r@.len() <= n,
    {
        let p = &items[n];
        proof {
            lemma_filter_step(all, n as int, holds);
            assert(all[n as int] == p@);
        }
        if text::same(p.strategy.as_str(), id) {
            let ghost before = ref_views(r@);
            r.push(p);
            assert(ref_views(r@) =~= before.push(p@));
        }
    }
    assert(all.take(all.len() as int) =~= all);
    r
}

/// The positions among these that are held for that long.
pub fn horizon_items<'a>(items: &Vec<&'a Prediction>, horizon: i64) -> (r: Vec<&'a Prediction>)
    ensures
        ref_views(r@) == ref_views(items@).filter(
            |p: PredictionView| p.horizon_secs == horizon,
        ),
        r@.len() <= items@.len(),
{
    let ghost all = ref_views(items@);
    let ghost holds = |p: PredictionView| p.horizon_secs == horizon;
    let mut r: Vec<&'a Prediction> = Vec::new();
    proof {
        reveal(Seq::filter);
        assert(ref_views(r@) =~= all.take(0).filter(holds));
    }
    for n in 0..items.len()
        invariant
            all == ref_views(items@),
            holds == (|p: PredictionView| p.horizon_secs == horizon),
            ref_views(r@) == all.take(n as int).filter(holds),
            r@.len() <= n,
    {
        let p = items[n];
        proof {
            lemma_filter_step(all, n as int, holds);
            assert(all[n as int] == p@);
        }
        if p.horizon_secs == horizon {
            let ghost before = ref_views(r@);
            r.push(p);
            assert(ref_views(r@) =~= before.push(p@));
        }
    }
    assert(all.take(all.len() as int) =~= all);
    r
}

/// The statistics of every strategy, in total and by horizon.
pub fn reports(items: &[Prediction], config: &LabConfig) -> (r: Vec<StrategyReport>)
    requires
        items@.len() <= i64::MAX,
    ensures
        r@.len() == 6,
        forall|k: int|
            0 <= k < 6 ==> reports_on(
                #[trigger] r@[k],
                STRATEGIES@[k],
                views(items@),
                *config,
            ),
{
    let mut out: Vec<StrategyReport> = Vec::new();
    for k in 0..6usize
        invariant
            items@.len() <= i64::MAX,
            out@.len() == k,
            forall|i: int|
                0 <= i < k ==> reports_on(
                    #[trigger] out@[i],
                    STRATEGIES@[i],
                    views(items@),
                    *config,
                ),
    {
        let strategy = STRATEGIES[k];
        let of_this = strategy_items(items, strategy.0);
        let mut horizons: Vec<HorizonReport> = Vec::new();
        for h in 0..4usize
            invariant
                items@.len() <= i64::MAX,
                of_this@.len() <= items@.len(),
                ref_views(of_this@) == of_strategy(views(items@), strategy.0@),
                horizons@.len() == h,
                forall|i: int|
                    0 <= i < h ==> {
                        &&& (#[trigger] horizons@[i]).horizon_secs == HORIZONS@[i]
                        &&& horizons@[i].stats == stats_of(
                            of_lane(views(items@), strategy.0@, HORIZONS@[i]),
                            config.initial_capital,
                            *config,
                        )
                    },
        {
            let horizon: i64 = HORIZONS[h];
            let lane = horizon_items(&of_this, horizon);
            horizons.push(
                HorizonReport {
                    horizon_secs: horizon,
                    stats: stats(lane.as_slice(), config.initial_capital, config),
                },
            );
        }
        let total = stats(
            of_this.as_slice(),
            config.initial_capital.times(Num::from_int(4)),
            config,
        );
        out.push(
            StrategyReport {
                id: strategy.0.to_owned(),
                name: strategy.1.to_owned(),
                description: strategy.2.to_owned(),
                stats: total,
                horizons,
            },
        );
    }
    out
}

} // verus!
