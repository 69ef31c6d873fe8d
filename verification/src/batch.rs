//! The decisions of a batch while the work on its documents completes.
//!
//! The caller waits for the units of work and appends to the log. What it
//! learns it hands in as an event, and what it is to do next it gets back.

use crate::error::{ErrorView, PipelineError};
use vstd::prelude::*;

verus! {

/// Where a batch stands.
#[derive(Clone, Debug, PartialEq, Eq)]
pub enum BatchState {
    /// Units may still complete; none is being recorded.
    Draining,
    /// This line is to be appended to the log, and the result is awaited.
    Appending { line: String },
    /// Every unit completed and every record was appended.
    Done,
    /// The batch ended with this failure.
    Aborted { error: PipelineError },
}

/// What the caller tells the batch.
#[derive(Clone, Debug, PartialEq, Eq)]
pub enum BatchEvent {
    /// A document's unit of work ended with this line.
    UnitCompleted { line: String },
    /// A document's unit of work failed, by itself or in its worker.
    UnitFailed { error: PipelineError },
    /// There is no unit left to wait for.
    Drained,
    /// The line was appended to the log.
    Appended,
    /// The line could not be appended to the log.
    AppendFailed,
}

/// What the caller is to do next.
#[derive(Clone, Debug, PartialEq, Eq)]
pub enum BatchAction {
    /// Wait for the next unit to end, and report it.
    AwaitUnit,
    /// Append this line to the log in one write, and report the result.
    Append { line: String },
    /// Return success.
    Finish,
    /// Return this failure, without waiting for the units that still run.
    Abort { error: PipelineError },
}

/// A state as a value.
pub enum StateView {
    Draining,
    Appending { line: Seq<char> },
    Done,
    Aborted { error: ErrorView },
}

/// An event as a value.
pub enum EventView {
    UnitCompleted { line: Seq<char> },
    UnitFailed { error: ErrorView },
    Drained,
    Appended,
    AppendFailed,
}

/// An action as a value.
pub enum ActionView {
    AwaitUnit,
    Append { line: Seq<char> },
    Finish,
    Abort { error: ErrorView },
}

impl View for BatchState {
    type V = StateView;

    open spec fn view(&self) -> StateView {
        match self {
            BatchState::Draining => StateView::Draining,
            BatchState::Appending { line } => StateView::Appending { line: line@ },
            BatchState::Done => StateView::Done,
            BatchState::Aborted { error } => StateView::Aborted { error: error@ },
        }
    }
}

impl View for BatchEvent {
    type V = EventView;

    open spec fn view(&self) -> EventView {
        match self {
            BatchEvent::UnitCompleted { line } => EventView::UnitCompleted { line: line@ },
            BatchEvent::UnitFailed { error } => EventView::UnitFailed { error: error@ },
            BatchEvent::Drained => EventView::Drained,
            BatchEvent::Appended => EventView::Appended,
            BatchEvent::AppendFailed => EventView::AppendFailed,
        }
    }
}

impl View for BatchAction {
    type V = ActionView;

    open spec fn view(&self) -> ActionView {
        match self {
            BatchAction::AwaitUnit => ActionView::AwaitUnit,
            BatchAction::Append { line } => ActionView::Append { line: line@ },
            BatchAction::Finish => ActionView::Finish,
            BatchAction::Abort { error } => ActionView::Abort { error: error@ },
        }
    }
}

impl StateView {
    /// What the caller owes in this state.
    pub open spec fn owed(self) -> ActionView {
        match self {
            StateView::Draining => ActionView::AwaitUnit,
            StateView::Appending { line } => ActionView::Append { line },
            StateView::Done => ActionView::Finish,
            StateView::Aborted { error } => ActionView::Abort { error },
        }
    }

    /// The state after `event`. A completed unit is recorded before the
    /// next is awaited; the first failure, of a unit or of the log, ends the
    /// batch; an end is final. An event that the state does not wait for
    /// changes nothing.
    pub open spec fn after(self, event: EventView) -> StateView {
        match (self, event) {
            (StateView::Draining, EventView::UnitCompleted { line }) => StateView::Appending {
                line,
            },
            (StateView::Draining, EventView::UnitFailed { error }) => StateView::Aborted { error },
            (StateView::Draining, EventView::Drained) => StateView::Done,
            (StateView::Appending { line }, EventView::Appended) => StateView::Draining,
            (StateView::Appending { line }, EventView::AppendFailed) => StateView::Aborted {
                error: ErrorView::Persistence,
            },
            _ => self,
        }
    }
}

/// The state of a batch before any of its units has ended.
pub fn start_batch() -> (r: (BatchState, BatchAction))
    ensures
        r.0@ == StateView::Draining,
        r.1@ == ActionView::AwaitUnit,
{
    (BatchState::Draining, BatchAction::AwaitUnit)
}

/// One decision of a batch: the state after `event`, and what the caller
/// owes then.
pub fn step_batch(state: BatchState, event: BatchEvent) -> (r: (BatchState, BatchAction))
    ensures
        r.0@ == state@.after(event@),
        r.1@ == state@.after(event@).owed(),
{
    match state {
        BatchState::Draining => match event {
            BatchEvent::UnitCompleted { line } => {
                let copy = line.clone();
                (BatchState::Appending { line }, BatchAction::Append { line: copy })
            },
            BatchEvent::UnitFailed { error } => {
                let copy = error.duplicate();
                (BatchState::Aborted { error }, BatchAction::Abort { error: copy })
            },
            BatchEvent::Drained => (BatchState::Done, BatchAction::Finish),
            _ => (BatchState::Draining, BatchAction::AwaitUnit),
        },
        BatchState::Appending { line } => match event {
            BatchEvent::Appended => (BatchState::Draining, BatchAction::AwaitUnit),
            BatchEvent::AppendFailed => (
                BatchState::Aborted { error: PipelineError::Persistence },
                BatchAction::Abort { error: PipelineError::Persistence },
            ),
            _ => {
                let copy = line.clone();
                (BatchState::Appending { line }, BatchAction::Append { line: copy })
            },
        },
        BatchState::Done => (BatchState::Done, BatchAction::Finish),
        BatchState::Aborted { error } => {
            let copy = error.duplicate();
            (BatchState::Aborted { error }, BatchAction::Abort { error: copy })
        },
    }
}

/// The state that `events`, one after the other, lead to from `state`.
pub open spec fn state_after(state: StateView, events: Seq<EventView>) -> StateView
    decreases events.len(),
{
    if events.len() == 0 {
        state
    } else {
        state_after(state, events.drop_last()).after(events.last())
    }
}

/// The lines that the log has received when `events` have come in from
/// `state`: each line whose append was owed and was then reported done.
pub open spec fn log_after(state: StateView, events: Seq<EventView>) -> Seq<Seq<char>>
    decreases events.len(),
{
    if events.len() == 0 {
        Seq::empty()
    } else {
        let log = log_after(state, events.drop_last());
        match (state_after(state, events.drop_last()), events.last()) {
            (StateView::Appending { line }, EventView::Appended) => log.push(line),
            _ => log,
        }
    }
}

/// The events that the ends of the units give rise to, in their order, with
/// a log that takes every line: a line brings its completion and its append,
/// a failure brings itself.
pub open spec fn faultless(ends: Seq<Result<Seq<char>, ErrorView>>) -> Seq<EventView>
    decreases ends.len(),
{
    if ends.len() == 0 {
        Seq::empty()
    } else {
        faultless(ends.drop_last()) + match ends.last() {
            Ok(line) => seq![EventView::UnitCompleted { line }, EventView::Appended],
            Err(error) => seq![EventView::UnitFailed { error }],
        }
    }
}

/// The failure of the first unit that failed.
pub open spec fn first_failure(ends: Seq<Result<Seq<char>, ErrorView>>) -> Option<ErrorView>
    decreases ends.len(),
{
    if ends.len() == 0 {
        None
    } else {
        match first_failure(ends.drop_last()) {
            Some(error) => Some(error),
            None => match ends.last() {
                Ok(_) => None,
                Err(error) => Some(error),
            },
        }
    }
}

/// The lines of the units that ended before any unit failed.
pub open spec fn lines_before_failure(ends: Seq<Result<Seq<char>, ErrorView>>) -> Seq<Seq<char>>
    decreases ends.len(),
{
    if ends.len() == 0 {
        Seq::empty()
    } else {
        let lines = lines_before_failure(ends.drop_last());
        match (first_failure(ends.drop_last()), ends.last()) {
            (None, Ok(line)) => lines.push(line),
            _ => lines,
        }
    }
}

/// Events that come one run after another lead where the second run leads
/// from where the first led, and the log receives what it receives in the
/// first and then in the second.
pub proof fn lemma_events_in_turn(state: StateView, first: Seq<EventView>, second: Seq<EventView>)
    ensures
        state_after(state, first + second) == state_after(state_after(state, first), second),
        log_after(state, first + second) == log_after(state, first) + log_after(
            state_after(state, first),
            second,
        ),
    decreases second.len(),
{
    if second.len() == 0 {
        assert(first + second == first);
    } else {
        lemma_events_in_turn(state, first, second.drop_last());
        assert((first + second).drop_last() == first + second.drop_last());
    }
}

/// A batch stops at the first failure. With a log that takes every line,
/// the units' ends lead to the failure of the first unit that failed, and to
/// success where none failed; and the log receives the lines of the units
/// that ended before that failure, in the order in which they ended, and
/// nothing after it.
pub proof fn lemma_fail_fast(ends: Seq<Result<Seq<char>, ErrorView>>)
    ensures
        state_after(StateView::Draining, faultless(ends)) == match first_failure(ends) {
            Some(error) => StateView::Aborted { error },
            None => StateView::Draining,
        },
        state_after(StateView::Draining, faultless(ends).push(EventView::Drained))
            == match first_failure(ends) {
            Some(error) => StateView::Aborted { error },
            None => StateView::Done,
        },
        log_after(StateView::Draining, faultless(ends)) == lines_before_failure(ends),
        log_after(StateView::Draining, faultless(ends).push(EventView::Drained))
            == lines_before_failure(ends),
    decreases ends.len(),
{
    let start = StateView::Draining;
    if ends.len() > 0 {
        let before = faultless(ends.drop_last());
        lemma_fail_fast(ends.drop_last());
        let midway = state_after(start, before);
        match ends.last() {
            Ok(line) => {
                let more = seq![EventView::UnitCompleted { line }, EventView::Appended];
                lemma_events_in_turn(start, before, more);
                assert(more.drop_last() == seq![EventView::UnitCompleted { line }]);
                assert(more.drop_last().drop_last() == Seq::<EventView>::empty());
                reveal_with_fuel(state_after, 3);
                reveal_with_fuel(log_after, 3);
                assert(log_after(midway, more) == if midway is Draining {
                    seq![line]
                } else {
                    Seq::<Seq<char>>::empty()
                });
            },
            Err(error) => {
                let more = seq![EventView::UnitFailed { error }];
                lemma_events_in_turn(start, before, more);
                assert(more.drop_last() == Seq::<EventView>::empty());
                reveal_with_fuel(state_after, 2);
                reveal_with_fuel(log_after, 2);
                assert(log_after(midway, more) == Seq::<Seq<char>>::empty());
            },
        }
    }
    assert(faultless(ends).push(EventView::Drained).drop_last() == faultless(ends));
}

} // verus!
