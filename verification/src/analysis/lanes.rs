//! What whoever watches is told of every lane.

use super::signal::{Evaluation, Lane, Reason};
use crate::model::is_moment;
use crate::num::Num;
use crate::paper::{Diagnostics, LabConfig, LaneDiagnostic};
use vstd::prelude::*;

verus! {

/// For how long before an evaluation the other exchange counts, in milliseconds.
pub const PEER_WINDOW_MS: i64 = 900_000;

/// How many points of the other exchange are read at most.
pub const PEER_POINTS: i64 = 120_000;

/// From when on the history of an evaluation is read.
pub fn history_since(at: i64, c: &LabConfig) -> (r: i64)
    requires
        is_moment(at),
        0 <= c.lookback_hours <= 168,
    ensures
        r == at - c.lookback_hours * 3_600_000,
{
    at - c.lookback_hours * 3_600_000
}

/// From when on the history of the other exchange is read.
pub fn peer_since(at: i64) -> (r: i64)
    requires
        is_moment(at),
    ensures
        r == at - PEER_WINDOW_MS,
{
    at - PEER_WINDOW_MS
}

impl Reason {
    /// What to tell of a lane that waits, where no number goes with it.
    pub open spec fn spec_waiting(self) -> Option<Seq<char>> {
        match self {
            Reason::NoSetup => Some("Waiting for this strategy's market setup"@),
            Reason::NoAnalogs => Some("Waiting for independent historical analogs"@),
            Reason::NoAgreement => Some(
                "Waiting for fresh agreement from both exchanges and trend"@,
            ),
            _ => None,
        }
    }

    /// What to tell of a lane that waits, where no number goes with it.
    pub fn waiting(self) -> (r: Option<&'static str>)
        ensures
            match r {
                Some(text) => self.spec_waiting() == Some(text@),
                None => self.spec_waiting() is None,
            },
    {
        match self {
            Reason::NoSetup => Some("Waiting for this strategy's market setup"),
            Reason::NoAnalogs => Some("Waiting for independent historical analogs"),
            Reason::NoAgreement => Some(
                "Waiting for fresh agreement from both exchanges and trend",
            ),
            _ => None,
        }
    }
}

/// Whether a diagnosis tells of a lane, with that reason.
pub open spec fn tells_of(d: LaneDiagnostic, lane: Lane, reason: Seq<char>) -> bool {
    &&& d.strategy@ == lane.strategy@
    &&& d.horizon_secs == lane.horizon_secs
    &&& d.reason@ == reason
}

/// What is told of an evaluation, with a text for the reason of every lane.
pub fn diagnostics(e: &Evaluation, reasons: &Vec<String>) -> (r: Diagnostics)
    requires
        reasons@.len() == e.lanes@.len(),
    ensures
        r.evaluated_at == Some(e.evaluated_at),
        r.message@
            == "All six strategies evaluated on closed windows. No setup means no trade."@,
        r.history_minutes == e.history_minutes,
        r.history_truncated == e.history_truncated,
        r.lanes@.len() == e.lanes@.len(),
        forall|i: int|
            0 <= i < r.lanes@.len() ==> tells_of(
                #[trigger] r.lanes@[i],
                e.lanes@[i],
                reasons@[i]@,
            ),
{
    let mut lanes: Vec<LaneDiagnostic> = Vec::new();
    for n in 0..e.lanes.len()
        invariant
            reasons@.len() == e.lanes@.len(),
            lanes@.len() == n,
            forall|i: int|
                0 <= i < n ==> tells_of(#[trigger] lanes@[i], e.lanes@[i], reasons@[i]@),
    {
        lanes.push(
            LaneDiagnostic {
                strategy: e.lanes[n].strategy.to_owned(),
                horizon_secs: e.lanes[n].horizon_secs,
                reason: reasons[n].clone(),
            },
        );
    }
    Diagnostics {
        evaluated_at: Some(e.evaluated_at),
        message: "All six strategies evaluated on closed windows. No setup means no trade.".to_owned(),
        history_minutes: e.history_minutes,
        history_truncated: e.history_truncated,
        lanes,
    }
}

/// What is told when no evaluation was possible.
pub fn failed_diagnostics(at: i64, message: String) -> (r: Diagnostics)
    ensures
        r.evaluated_at == Some(at),
        r.message == message,
        r.history_minutes == Num::zero(),
        !r.history_truncated,
        r.lanes@ == Seq::<LaneDiagnostic>::empty(),
{
    Diagnostics {
        evaluated_at: Some(at),
        message,
        history_minutes: Num::zero(),
        history_truncated: false,
        lanes: Vec::new(),
    }
}

/// What is told before the first evaluation.
pub fn idle_diagnostics() -> (r: Diagnostics)
    ensures
        r.evaluated_at is None,
        r.message@
            == "Start the lab to collect fresh history and evaluate all six strategies."@,
        r.history_minutes == Num::zero(),
        !r.history_truncated,
        r.lanes@ == Seq::<LaneDiagnostic>::empty(),
{
    Diagnostics {
        evaluated_at: None,
        message: "Start the lab to collect fresh history and evaluate all six strategies.".to_owned(),
        history_minutes: Num::zero(),
        history_truncated: false,
        lanes: Vec::new(),
    }
}

} // verus!
