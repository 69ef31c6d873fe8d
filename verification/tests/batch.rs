use optimo::batch::{start_batch, step_batch, BatchAction, BatchEvent, BatchState};
use optimo::error::PipelineError;

fn completed(line: &str) -> BatchEvent {
    BatchEvent::UnitCompleted { line: line.to_string() }
}

fn failed(error: PipelineError) -> BatchEvent {
    BatchEvent::UnitFailed { error }
}

fn append(line: &str) -> BatchAction {
    BatchAction::Append { line: line.to_string() }
}

struct Run {
    state: BatchState,
    log: Vec<String>,
    owed: BatchAction,
}

fn run(ends: Vec<Result<&str, PipelineError>>, log_fails_at: Option<usize>) -> Run {
    let (mut state, mut owed) = start_batch();
    let mut log = Vec::new();
    let mut ends = ends.into_iter();
    loop {
        let event = match &owed {
            BatchAction::AwaitUnit => match ends.next() {
                None => BatchEvent::Drained,
                Some(Ok(line)) => completed(line),
                Some(Err(error)) => failed(error),
            },
            BatchAction::Append { line } => {
                if log_fails_at == Some(log.len()) {
                    BatchEvent::AppendFailed
                } else {
                    log.push(line.clone());
                    BatchEvent::Appended
                }
            }
            BatchAction::Finish | BatchAction::Abort { .. } => return Run { state, log, owed },
        };
        let next = step_batch(state, event);
        state = next.0;
        owed = next.1;
    }
}

#[test]
fn a_batch_starts_by_waiting() {
    assert_eq!(start_batch(), (BatchState::Draining, BatchAction::AwaitUnit));
}

#[test]
fn an_empty_batch_succeeds_without_output() {
    let end = run(Vec::new(), None);
    assert_eq!(end.state, BatchState::Done);
    assert_eq!(end.owed, BatchAction::Finish);
    assert_eq!(end.log, Vec::<String>::new());
}

#[test]
fn every_completed_document_is_recorded_in_completion_order() {
    let end = run(vec![Ok("second"), Ok("first"), Ok("third")], None);
    assert_eq!(end.state, BatchState::Done);
    assert_eq!(end.owed, BatchAction::Finish);
    assert_eq!(end.log, vec!["second", "first", "third"]);
}

#[test]
fn the_batch_stops_at_the_first_failure() {
    let error = PipelineError::EngineInvocation { variant: "rotated".to_string() };
    let end = run(vec![Ok("one"), Err(error.clone()), Ok("three")], None);
    assert_eq!(end.state, BatchState::Aborted { error: error.clone() });
    assert_eq!(end.owed, BatchAction::Abort { error });
    assert_eq!(end.log, vec!["one"]);
}

#[test]
fn a_failure_before_any_completion_records_nothing() {
    let end = run(vec![Err(PipelineError::WorkerBoundary), Ok("late")], None);
    assert_eq!(end.owed, BatchAction::Abort { error: PipelineError::WorkerBoundary });
    assert_eq!(end.log, Vec::<String>::new());
}

#[test]
fn a_log_that_fails_ends_the_batch() {
    let end = run(vec![Ok("one"), Ok("two"), Ok("three")], Some(1));
    assert_eq!(end.state, BatchState::Aborted { error: PipelineError::Persistence });
    assert_eq!(end.owed, BatchAction::Abort { error: PipelineError::Persistence });
    assert_eq!(end.log, vec!["one"]);
}

#[test]
fn each_step_of_a_batch() {
    let (state, owed) = step_batch(BatchState::Draining, completed("r1"));
    assert_eq!(state, BatchState::Appending { line: "r1".to_string() });
    assert_eq!(owed, append("r1"));
    let (state, owed) = step_batch(state, BatchEvent::Appended);
    assert_eq!((state.clone(), owed), (BatchState::Draining, BatchAction::AwaitUnit));
    let (state, owed) = step_batch(state, BatchEvent::Drained);
    assert_eq!((state, owed), (BatchState::Done, BatchAction::Finish));
}

#[test]
fn an_end_is_final() {
    let error = PipelineError::EngineOutput { variant: "original".to_string() };
    let events = [
        completed("x"),
        failed(PipelineError::WorkerBoundary),
        BatchEvent::Drained,
        BatchEvent::Appended,
        BatchEvent::AppendFailed,
    ];
    for event in events {
        assert_eq!(
            step_batch(BatchState::Done, event.clone()),
            (BatchState::Done, BatchAction::Finish)
        );
        assert_eq!(
            step_batch(BatchState::Aborted { error: error.clone() }, event),
            (BatchState::Aborted { error: error.clone() }, BatchAction::Abort { error: error.clone() })
        );
    }
}

#[test]
fn an_event_that_is_not_awaited_changes_nothing() {
    for event in [BatchEvent::Appended, BatchEvent::AppendFailed] {
        assert_eq!(
            step_batch(BatchState::Draining, event),
            (BatchState::Draining, BatchAction::AwaitUnit)
        );
    }
    let appending = BatchState::Appending { line: "kept".to_string() };
    for event in [completed("other"), failed(PipelineError::WorkerBoundary), BatchEvent::Drained] {
        assert_eq!(step_batch(appending.clone(), event), (appending.clone(), append("kept")));
    }
}
