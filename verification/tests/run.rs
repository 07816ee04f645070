use othello_full_search::run::{
    batch_size, run_command, stop_line, RunAction, RunEvent, RunLimits, RunStep,
};

fn limits(batch: usize, max_positions: Option<u64>, max_seconds: Option<u64>) -> RunLimits {
    RunLimits { batch, max_positions, max_seconds }
}

#[test]
fn batches_shrink_towards_the_limit() {
    assert_eq!(batch_size(limits(100, None, None), 5), 100);
    assert_eq!(batch_size(limits(100, Some(1000), None), 5), 100);
    assert_eq!(batch_size(limits(100, Some(1000), None), 970), 30);
    assert_eq!(batch_size(limits(100, Some(1000), None), 1000), 1);
    assert_eq!(batch_size(limits(100, Some(3), None), 10), 1);
    assert_eq!(batch_size(limits(0, Some(3), None), 0), 0);
}

#[test]
fn stop_request_comes_before_the_limits() {
    let bounds = limits(10, Some(5), Some(60));
    let step = run_command(5, bounds, RunEvent::Ready { stop: true, elapsed: 100 });
    assert_eq!(step, RunStep { processed: 5, action: RunAction::StopOnRequest });
    assert_eq!(
        stop_line(step.action).unwrap(),
        "stop requested; exiting after last committed batch"
    );
}

#[test]
fn limits_end_a_run_in_silence() {
    let bounds = limits(10, Some(5), Some(60));
    let at_positions = run_command(5, bounds, RunEvent::Ready { stop: false, elapsed: 0 });
    assert_eq!(at_positions.action, RunAction::StopAtLimit);
    let at_seconds = run_command(0, bounds, RunEvent::Ready { stop: false, elapsed: 60 });
    assert_eq!(at_seconds.action, RunAction::StopAtLimit);
    assert_eq!(stop_line(RunAction::StopAtLimit), None);
    let going = run_command(2, bounds, RunEvent::Ready { stop: false, elapsed: 59 });
    assert_eq!(going.action, RunAction::Fetch(3));
}

#[test]
fn zero_limits_end_a_run_at_once() {
    let none = limits(10, Some(0), None);
    assert_eq!(
        run_command(0, none, RunEvent::Ready { stop: false, elapsed: 0 }).action,
        RunAction::StopAtLimit
    );
    let no_time = limits(10, None, Some(0));
    assert_eq!(
        run_command(0, no_time, RunEvent::Ready { stop: false, elapsed: 0 }).action,
        RunAction::StopAtLimit
    );
}

#[test]
fn empty_frontier_ends_a_run() {
    let bounds = limits(10, None, None);
    let step = run_command(3, bounds, RunEvent::Fetched { empty: true });
    assert_eq!(step, RunStep { processed: 3, action: RunAction::StopComplete });
    assert_eq!(
        stop_line(step.action).unwrap(),
        "frontier is empty; graph expansion is complete for this database"
    );
    let begin = run_command(3, bounds, RunEvent::Fetched { empty: false });
    assert_eq!(begin.action, RunAction::Begin);
    assert_eq!(stop_line(begin.action), None);
}

#[test]
fn batch_never_passes_the_limit() {
    let bounds = limits(10, Some(4), None);
    let mut processed = 0;
    let mut left = 0;
    for did_work in [true, false, true, true, true, true, false, true] {
        let step = run_command(processed, bounds, RunEvent::AtKey);
        if step.action == RunAction::Commit {
            left += 1;
            continue;
        }
        assert_eq!(step.action, RunAction::Process);
        let after = run_command(processed, bounds, RunEvent::Processed { did_work });
        assert_eq!(after.action, RunAction::NextKey);
        assert_eq!(after.processed, processed + did_work as u64);
        processed = after.processed;
        assert!(processed <= 4);
    }
    assert_eq!(processed, 4);
    assert_eq!(left, 3);
}

#[test]
fn reports_come_every_five_seconds() {
    let bounds = limits(10, None, None);
    let early = run_command(1, bounds, RunEvent::Committed { since_report: 4 });
    assert_eq!(early.action, RunAction::Continue);
    let due = run_command(1, bounds, RunEvent::Committed { since_report: 5 });
    assert_eq!(due, RunStep { processed: 1, action: RunAction::Report });
}
