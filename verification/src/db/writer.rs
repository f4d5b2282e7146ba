//! How market events are gathered and written.

use crate::model::{EventView, MarketEvent};
use vstd::prelude::*;

verus! {

/// The greatest number of events that are written at once.
pub const BATCH: usize = 256;

/// For how long events are gathered after the first one, in milliseconds.
pub const GATHER_MS: u64 = 40;

/// For how long a failed write waits before the next attempt, in milliseconds.
pub const RETRY_MS: u64 = 500;

/// What the writer is at.
#[derive(Debug, Clone, Copy, PartialEq, Eq, Structural)]
pub enum Phase {
    Idle,
    Gathering,
    Writing,
}

/// What comes to the writer: an event, whoever waits until all is written, or no more of either,
/// since the time is up or nobody is left to send.
#[derive(Debug)]
pub enum Arrival {
    Event(MarketEvent),
    Flush,
    Nothing,
}

/// What the writer does next.
#[derive(Debug, Clone, Copy, PartialEq, Eq, Structural)]
pub enum Step {
    /// Wait for whatever comes.
    Await,
    /// Start the time for gathering, and wait until it is up at the latest.
    Begin,
    /// Go on gathering.
    Gather,
    /// Write the batch in one transaction.
    Write,
    /// Wait a moment, and write the same batch again.
    Retry,
    /// Tell whoever waits that all is written.
    Acknowledge,
    /// End.
    Stop,
}

/// The writer of market events.
#[derive(Debug)]
pub struct Writer {
    pub phase: Phase,
    pub batch: Vec<MarketEvent>,
    /// Whether somebody waits for this batch.
    pub awaited: bool,
}

/// How the writer stands.
#[verifier::ext_equal]
pub struct WriterView {
    pub phase: Phase,
    pub batch: Seq<EventView>,
    pub awaited: bool,
}

/// The views of events.
pub open spec fn event_views(events: Seq<MarketEvent>) -> Seq<EventView> {
    Seq::new(events.len(), |i: int| events[i]@)
}

impl View for Writer {
    type V = WriterView;

    open spec fn view(&self) -> WriterView {
        WriterView {
            phase: self.phase,
            batch: event_views(self.batch@),
            awaited: self.awaited,
        }
    }
}

/// What the writer is told: what came, or how a write ended.
pub enum Told {
    Event(EventView),
    Flush,
    Nothing,
    Written(bool),
}

impl WriterView {
    /// A writer that has nothing to do.
    pub open spec fn idle() -> WriterView {
        WriterView { phase: Phase::Idle, batch: Seq::empty(), awaited: false }
    }

    /// Whether a state can occur.
    pub open spec fn well_formed(self) -> bool {
        match self.phase {
            Phase::Idle => self.batch.len() == 0 && !self.awaited,
            Phase::Gathering => 0 < self.batch.len() < BATCH && !self.awaited,
            Phase::Writing => 0 < self.batch.len() <= BATCH,
        }
    }

    /// Whether that can be told in this state: how a write ended while one is at work, what came
    /// while none is.
    pub open spec fn can_be_told(self, told: Told) -> bool {
        self.phase == Phase::Writing <==> told is Written
    }

    /// The state after being told, and what to do.
    pub open spec fn after(self, told: Told) -> (WriterView, Step) {
        match told {
            Told::Event(e) => {
                let batch = self.batch.push(e);
                if self.phase == Phase::Idle {
                    (WriterView { phase: Phase::Gathering, batch, awaited: false }, Step::Begin)
                } else if batch.len() < BATCH {
                    (WriterView { phase: Phase::Gathering, batch, awaited: false }, Step::Gather)
                } else {
                    (WriterView { phase: Phase::Writing, batch, awaited: false }, Step::Write)
                }
            },
            Told::Flush => if self.phase == Phase::Idle {
                (self, Step::Acknowledge)
            } else {
                (
                    WriterView { phase: Phase::Writing, batch: self.batch, awaited: true },
                    Step::Write,
                )
            },
            Told::Nothing => if self.phase == Phase::Idle {
                (self, Step::Stop)
            } else {
                (
                    WriterView { phase: Phase::Writing, batch: self.batch, awaited: false },
                    Step::Write,
                )
            },
            Told::Written(true) => (WriterView::idle(), if self.awaited {
                Step::Acknowledge
            } else {
                Step::Await
            }),
            Told::Written(false) => (self, Step::Retry),
        }
    }
}

impl Arrival {
    /// What the writer is told when that comes.
    pub open spec fn told(self) -> Told {
        match self {
            Arrival::Event(e) => Told::Event(e@),
            Arrival::Flush => Told::Flush,
            Arrival::Nothing => Told::Nothing,
        }
    }
}

impl Writer {
    /// A writer that has nothing to do.
    pub fn new() -> (r: Writer)
        ensures
            r@ == WriterView::idle(),
            r@.well_formed(),
    {
        let r = Writer { phase: Phase::Idle, batch: Vec::new(), awaited: false };
        assert(r@.batch =~= Seq::<EventView>::empty());
        r
    }

    /// Takes in what came, and says what to do.
    pub fn receive(&mut self, arrival: Arrival) -> (r: Step)
        requires
            old(self)@.well_formed(),
            old(self).phase != Phase::Writing,
        ensures
            (final(self)@, r) == old(self)@.after(arrival.told()),
            final(self)@.well_formed(),
    {
        let ghost before = self@.batch;
        match arrival {
            Arrival::Event(event) => {
                let ghost e = event@;
                self.batch.push(event);
                assert(self@.batch =~= before.push(e));
                self.awaited = false;
                if self.phase == Phase::Idle {
                    self.phase = Phase::Gathering;
                    Step::Begin
                } else if self.batch.len() < BATCH {
                    Step::Gather
                } else {
                    self.phase = Phase::Writing;
                    Step::Write
                }
            },
            Arrival::Flush => if self.phase == Phase::Idle {
                Step::Acknowledge
            } else {
                self.phase = Phase::Writing;
                self.awaited = true;
                Step::Write
            },
            Arrival::Nothing => if self.phase == Phase::Idle {
                Step::Stop
            } else {
                self.phase = Phase::Writing;
                self.awaited = false;
                Step::Write
            },
        }
    }

    /// Takes in how a write ended, and says what to do. A batch that could not be written is
    /// kept whole.
    pub fn written(&mut self, success: bool) -> (r: Step)
        requires
            old(self)@.well_formed(),
            old(self).phase == Phase::Writing,
        ensures
            (final(self)@, r) == old(self)@.after(Told::Written(success)),
            final(self)@.well_formed(),
    {
        if !success {
            return Step::Retry;
        }
        let awaited = self.awaited;
        self.phase = Phase::Idle;
        self.batch = Vec::new();
        self.awaited = false;
        assert(self@.batch =~= Seq::<EventView>::empty());
        if awaited {
            Step::Acknowledge
        } else {
            Step::Await
        }
    }
}

/// The state of a new writer that was told all that.
pub open spec fn state_after(history: Seq<Told>) -> WriterView
    decreases history.len(),
{
    if history.len() == 0 {
        WriterView::idle()
    } else {
        state_after(history.drop_last()).after(history.last()).0
    }
}

/// What a new writer does last when it is told all that.
pub open spec fn last_step(history: Seq<Told>) -> Step {
    if history.len() == 0 {
        Step::Await
    } else {
        state_after(history.drop_last()).after(history.last()).1
    }
}

/// Whether a writer can be told all that, in this order.
pub open spec fn can_happen(history: Seq<Told>) -> bool
    decreases history.len(),
{
    history.len() > 0 ==> {
        &&& can_happen(history.drop_last())
        &&& state_after(history.drop_last()).can_be_told(history.last())
    }
}

/// The events that came.
pub open spec fn came(history: Seq<Told>) -> Seq<EventView>
    decreases history.len(),
{
    if history.len() == 0 {
        seq![]
    } else {
        match history.last() {
            Told::Event(e) => came(history.drop_last()).push(e),
            _ => came(history.drop_last()),
        }
    }
}

/// The events that were written: the batch at hand whenever a write succeeds.
pub open spec fn stored(history: Seq<Told>) -> Seq<EventView>
    decreases history.len(),
{
    if history.len() == 0 {
        seq![]
    } else {
        match history.last() {
            Told::Written(true) => stored(history.drop_last()) + state_after(
                history.drop_last(),
            ).batch,
            _ => stored(history.drop_last()),
        }
    }
}

/// No event is lost, written twice or out of order: what came is what was written, and then what
/// is at hand, whatever failed in between.
pub proof fn lemma_nothing_is_lost(history: Seq<Told>)
    requires
        can_happen(history),
    ensures
        came(history) == stored(history) + state_after(history).batch,
        state_after(history).well_formed(),
    decreases history.len(),
{
    if history.len() == 0 {
        assert(came(history) =~= stored(history) + state_after(history).batch);
    } else {
        let before = history.drop_last();
        lemma_nothing_is_lost(before);
        match history.last() {
            Told::Event(e) => {
                assert(came(history) =~= stored(before) + state_after(before).batch.push(e));
            },
            Told::Written(true) => {
                assert(stored(history) + Seq::<EventView>::empty() =~= stored(history));
            },
            _ => {},
        }
    }
}

/// Whoever waits is told that all is written only when every event that came before is.
pub proof fn lemma_acknowledged_is_stored(history: Seq<Told>)
    requires
        can_happen(history),
        last_step(history) == Step::Acknowledge,
    ensures
        stored(history) == came(history),
{
    lemma_nothing_is_lost(history);
    lemma_nothing_is_lost(history.drop_last());
    assert(state_after(history).batch.len() == 0);
    assert(stored(history) + state_after(history).batch =~= stored(history));
}

/// Failed writes leave a writer at its batch.
proof fn lemma_failures_keep_the_batch(asked: Seq<Told>, failures: nat)
    requires
        can_happen(asked),
        state_after(asked).phase == Phase::Writing,
    ensures
        ({
            let failed = asked + Seq::new(failures, |i: int| Told::Written(false));
            &&& can_happen(failed)
            &&& state_after(failed) == state_after(asked)
            &&& failures > 0 ==> last_step(failed) == Step::Retry
            &&& failures == 0 ==> failed == asked
        }),
    decreases failures,
{
    let failed = asked + Seq::new(failures, |i: int| Told::Written(false));
    if failures == 0 {
        assert(failed =~= asked);
    } else {
        let less = (failures - 1) as nat;
        lemma_failures_keep_the_batch(asked, less);
        assert(failed.drop_last() =~= asked + Seq::new(less, |i: int| Told::Written(false)));
        assert(failed.last() == Told::Written(false));
    }
}

/// Whoever waits is answered: at once where nothing is at hand, and otherwise as soon as the batch
/// at hand is written, however many writes of it fail before.
pub proof fn lemma_waiting_is_answered(history: Seq<Told>, failures: nat)
    requires
        can_happen(history),
        state_after(history).phase != Phase::Writing,
    ensures
        ({
            let asked = history.push(Told::Flush);
            let failed = asked + Seq::new(failures, |i: int| Told::Written(false));
            let answered = failed.push(Told::Written(true));
            &&& state_after(history).batch.len() == 0 ==> last_step(asked) == Step::Acknowledge
            &&& state_after(history).batch.len() > 0 ==> {
                &&& last_step(asked) == Step::Write
                &&& can_happen(answered)
                &&& last_step(failed) == if failures == 0 {
                    Step::Write
                } else {
                    Step::Retry
                }
                &&& state_after(failed).batch == state_after(history).batch
                &&& last_step(answered) == Step::Acknowledge
            }
        }),
{
    let asked = history.push(Told::Flush);
    lemma_nothing_is_lost(history);
    assert(asked.drop_last() =~= history);
    if state_after(history).batch.len() > 0 {
        lemma_failures_keep_the_batch(asked, failures);
        let failed = asked + Seq::new(failures, |i: int| Told::Written(false));
        let answered = failed.push(Told::Written(true));
        assert(answered.drop_last() =~= failed);
    }
}

/// The writer ends only when nobody is left to send and nothing is left to write, and it writes
/// as soon as a batch is full.
pub proof fn lemma_the_writer_ends_empty(history: Seq<Told>)
    requires
        can_happen(history),
        history.len() > 0,
    ensures
        last_step(history) == Step::Stop ==> history.last() is Nothing && stored(history) == came(
            history,
        ),
        history.last() is Nothing && state_after(history).batch.len() == 0 ==> last_step(history)
            == Step::Stop,
        history.last() is Nothing && state_after(history).batch.len() > 0 ==> last_step(history)
            == Step::Write,
        history.last() is Event ==> (last_step(history) == Step::Write <==> state_after(
            history,
        ).batch.len() == BATCH),
        history.last() is Event ==> (last_step(history) == Step::Begin <==> state_after(
            history,
        ).batch.len() == 1),
{
    lemma_nothing_is_lost(history);
    lemma_nothing_is_lost(history.drop_last());
    if state_after(history).batch.len() == 0 {
        assert(stored(history) + state_after(history).batch =~= stored(history));
    }
}

} // verus!
