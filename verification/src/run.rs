//! What a search run does next: how many positions to take, and when to stop.
use vstd::prelude::*;

verus! {

/// The number of seconds between two reports of a run.
pub const REPORT_SECONDS: u64 = 5;

/// The bounds of a search run.
#[derive(Clone, Copy, Debug, PartialEq, Eq, Structural)]
pub struct RunLimits {
    /// The most positions to take from the frontier at a time.
    pub batch: usize,
    /// The most positions to process.
    pub max_positions: Option<u64>,
    /// The most seconds to go on for.
    pub max_seconds: Option<u64>,
}

/// What has happened in a search run.
#[derive(Clone, Copy, Debug, PartialEq, Eq, Structural)]
pub enum RunEvent {
    /// The next batch may begin, `elapsed` full seconds after the start; `stop` tells
    /// whether the user has asked to stop.
    Ready { stop: bool, elapsed: u64 },
    /// The keys of the batch are known.
    Fetched { empty: bool },
    /// The next key of the batch is at hand.
    AtKey,
    /// The position under the key is processed.
    Processed { did_work: bool },
    /// The batch is committed, `since_report` full seconds after the last report.
    Committed { since_report: u64 },
}

/// What a search run does next.
#[derive(Clone, Copy, Debug, PartialEq, Eq, Structural)]
pub enum RunAction {
    /// Read at most this many keys from the frontier, in ascending order.
    Fetch(usize),
    /// Go through the keys of the batch.
    Begin,
    /// Process the position under the key.
    Process,
    /// Go on to the next key of the batch.
    NextKey,
    /// Leave the rest of the batch and commit.
    Commit,
    /// Report, then begin the next batch.
    Report,
    /// Begin the next batch.
    Continue,
    /// End the run because the user asked for it.
    StopOnRequest,
    /// End the run because the frontier is empty.
    StopComplete,
    /// End the run at one of its limits.
    StopAtLimit,
}

/// The state after an event: the number of positions processed, and what to do.
#[derive(Clone, Copy, Debug, PartialEq, Eq, Structural)]
pub struct RunStep {
    pub processed: u64,
    pub action: RunAction,
}

impl RunLimits {
    /// Whether as many positions are processed as the limit allows.
    pub open spec fn reached(self, processed: u64) -> bool {
        self.max_positions matches Some(limit) && processed >= limit
    }

    /// Whether the time is up.
    pub open spec fn timed_out(self, elapsed: u64) -> bool {
        self.max_seconds matches Some(seconds) && elapsed >= seconds
    }

    /// The number of keys to take: a full batch, or what the limit on positions leaves of
    /// it, but at least one. On machines whose `usize` is narrower than 64 bits the
    /// distance to the limit is cut to that width first.
    pub open spec fn take(self, processed: u64) -> usize {
        let left = match self.max_positions {
            Some(limit) => if limit >= processed {
                ((limit - processed) as u64) as usize
            } else {
                0
            },
            None => self.batch,
        };
        let wanted: usize = if left >= 1 {
            left
        } else {
            1
        };
        if self.batch <= wanted {
            self.batch
        } else {
            wanted
        }
    }
}

/// The number of positions processed and what to do after an event.
pub open spec fn run_choice(processed: u64, limits: RunLimits, event: RunEvent) -> (int, RunAction) {
    match event {
        RunEvent::Ready { stop, elapsed } => (
            processed as int,
            if stop {
                RunAction::StopOnRequest
            } else if limits.reached(processed) || limits.timed_out(elapsed) {
                RunAction::StopAtLimit
            } else {
                RunAction::Fetch(limits.take(processed))
            },
        ),
        RunEvent::Fetched { empty } => (
            processed as int,
            if empty {
                RunAction::StopComplete
            } else {
                RunAction::Begin
            },
        ),
        RunEvent::AtKey => (
            processed as int,
            if limits.reached(processed) {
                RunAction::Commit
            } else {
                RunAction::Process
            },
        ),
        RunEvent::Processed { did_work } => (
            if did_work {
                processed + 1
            } else {
                processed as int
            },
            RunAction::NextKey,
        ),
        RunEvent::Committed { since_report } => (
            processed as int,
            if since_report >= REPORT_SECONDS {
                RunAction::Report
            } else {
                RunAction::Continue
            },
        ),
    }
}

/// Whether the limit on positions is reached.
fn limit_reached(limits: RunLimits, processed: u64) -> (reached: bool)
    ensures
        reached == limits.reached(processed),
{
    match limits.max_positions {
        Some(limit) => processed >= limit,
        None => false,
    }
}

/// The number of keys to take for the next batch.
pub fn batch_size(limits: RunLimits, processed: u64) -> (take: usize)
    ensures
        take == limits.take(processed),
{
    let left: usize = match limits.max_positions {
        Some(limit) => limit.saturating_sub(processed) as usize,
        None => limits.batch,
    };
    let wanted: usize = if left >= 1 {
        left
    } else {
        1
    };
    if limits.batch <= wanted {
        limits.batch
    } else {
        wanted
    }
}

/// Decides what a search run does after an event. A request to stop comes before the limits,
/// and both before any further batch.
pub fn run_command(processed: u64, limits: RunLimits, event: RunEvent) -> (step: RunStep)
    requires
        event matches RunEvent::Processed { did_work: true } ==> processed < u64::MAX,
    ensures
        (step.processed as int, step.action) == run_choice(processed, limits, event),
{
    match event {
        RunEvent::Ready { stop, elapsed } => {
            let timed_out = match limits.max_seconds {
                Some(seconds) => elapsed >= seconds,
                None => false,
            };
            let action = if stop {
                RunAction::StopOnRequest
            } else if limit_reached(limits, processed) || timed_out {
                RunAction::StopAtLimit
            } else {
                RunAction::Fetch(batch_size(limits, processed))
            };
            RunStep { processed, action }
        },
        RunEvent::Fetched { empty } => {
            let action = if empty {
                RunAction::StopComplete
            } else {
                RunAction::Begin
            };
            RunStep { processed, action }
        },
        RunEvent::AtKey => {
            let action = if limit_reached(limits, processed) {
                RunAction::Commit
            } else {
                RunAction::Process
            };
            RunStep { processed, action }
        },
        RunEvent::Processed { did_work } => {
            let count: u64 = if did_work {
                processed + 1
            } else {
                processed
            };
            RunStep { processed: count, action: RunAction::NextKey }
        },
        RunEvent::Committed { since_report } => {
            let action = if since_report >= REPORT_SECONDS {
                RunAction::Report
            } else {
                RunAction::Continue
            };
            RunStep { processed, action }
        },
    }
}

/// The line with which a run says why it ends.
pub open spec fn stop_text(action: RunAction) -> Option<Seq<char>> {
    match action {
        RunAction::StopOnRequest => Some("stop requested; exiting after last committed batch"@),
        RunAction::StopComplete => Some(
            "frontier is empty; graph expansion is complete for this database"@,
        ),
        _ => None,
    }
}

/// The line with which a run says why it ends; at a limit it says nothing.
pub fn stop_line(action: RunAction) -> (line: Option<String>)
    ensures
        stop_text(action) == match line {
            Some(text) => Some(text@),
            None => None,
        },
{
    match action {
        RunAction::StopOnRequest => Some(
            "stop requested; exiting after last committed batch".to_owned(),
        ),
        RunAction::StopComplete => Some(
            "frontier is empty; graph expansion is complete for this database".to_owned(),
        ),
        _ => None,
    }
}

/// A run with a limit on positions never processes more than it allows: a position is
/// processed only below the limit, whatever its processing comes to.
pub proof fn law_run_stays_within_limit(
    processed: u64,
    limits: RunLimits,
    limit: u64,
    did_work: bool,
)
    requires
        limits.max_positions == Some(limit),
        run_choice(processed, limits, RunEvent::AtKey).1 == RunAction::Process,
    ensures
        run_choice(processed, limits, RunEvent::Processed { did_work }).0 <= limit,
{
}

/// The number of positions processed after going through the keys of a batch, `works`
/// telling of each key in turn whether there was work to do under it.
pub open spec fn after_keys(processed: u64, limits: RunLimits, works: Seq<bool>) -> u64
    decreases works.len(),
{
    if works.len() == 0 {
        processed
    } else {
        let before = after_keys(processed, limits, works.drop_last());
        if run_choice(before, limits, RunEvent::AtKey).1 == RunAction::Process {
            run_choice(before, limits, RunEvent::Processed { did_work: works.last() }).0 as u64
        } else {
            before
        }
    }
}

/// A batch never takes a run with a limit on positions beyond it.
pub proof fn law_batch_stays_within_limit(
    processed: u64,
    limits: RunLimits,
    limit: u64,
    works: Seq<bool>,
)
    requires
        limits.max_positions == Some(limit),
        processed <= limit,
    ensures
        processed <= after_keys(processed, limits, works) <= limit,
    decreases works.len(),
{
    if works.len() > 0 {
        law_batch_stays_within_limit(processed, limits, limit, works.drop_last());
    }
}

/// No batch takes more keys than the batch size, and one of at least one key is taken
/// unless the batch size is zero.
pub proof fn law_batches_are_bounded(processed: u64, limits: RunLimits)
    ensures
        limits.take(processed) <= limits.batch,
        limits.batch >= 1 ==> limits.take(processed) >= 1,
{
}

/// Once a stop is requested or a limit is reached, no further batch begins.
pub proof fn law_no_batch_after_the_end(
    processed: u64,
    limits: RunLimits,
    stop: bool,
    elapsed: u64,
)
    requires
        stop || limits.reached(processed) || limits.timed_out(elapsed),
    ensures
        run_choice(processed, limits, RunEvent::Ready { stop, elapsed }).1 !is Fetch,
        run_choice(processed, limits, RunEvent::Ready { stop, elapsed }).0 == processed,
{
}

/// A run gets on: where no limit on positions is given, or fewer positions are processed than
/// it allows, the key at hand is processed; at the limit the batch is left. A processed
/// position counts exactly where there was work to do.
pub proof fn law_keys_are_processed_below_the_limit(
    processed: u64,
    limits: RunLimits,
    did_work: bool,
)
    ensures
        (limits.max_positions is None || processed < limits.max_positions->0) ==> run_choice(
            processed,
            limits,
            RunEvent::AtKey,
        ) == (processed as int, RunAction::Process),
        (limits.max_positions is Some && processed >= limits.max_positions->0) ==> run_choice(
            processed,
            limits,
            RunEvent::AtKey,
        ) == (processed as int, RunAction::Commit),
        run_choice(processed, limits, RunEvent::Processed { did_work }) == (
            if did_work {
                processed + 1
            } else {
                processed as int
            },
            RunAction::NextKey,
        ),
{
}

/// Going through the keys of a batch adds to the count of processed positions exactly the
/// number of keys with work to do; with a limit, the smaller of that number and what the
/// limit leaves.
pub proof fn law_batch_does_all_its_work(processed: u64, limits: RunLimits, works: Seq<bool>)
    requires
        processed + works.filter(|w: bool| w).len() <= u64::MAX,
    ensures
        limits.max_positions is None ==> after_keys(processed, limits, works) == processed
            + works.filter(|w: bool| w).len(),
        limits.max_positions matches Some(limit) ==> processed <= limit ==> after_keys(
            processed,
            limits,
            works,
        ) == if processed + works.filter(|w: bool| w).len() <= limit {
            processed + works.filter(|w: bool| w).len()
        } else {
            limit as int
        },
    decreases works.len(),
{
    reveal(Seq::filter);
    if works.len() > 0 {
        let f = |w: bool| w;
        assert(works.filter(f).len() == works.drop_last().filter(f).len() + if works.last() {
            1int
        } else {
            0int
        });
        law_batch_does_all_its_work(processed, limits, works.drop_last());
    }
}

/// A run that is not asked to stop and has reached none of its limits takes a batch, and it
/// ends for no other reason; a request to stop is told from a limit.
pub proof fn law_run_goes_on_while_it_may(
    processed: u64,
    limits: RunLimits,
    stop: bool,
    elapsed: u64,
)
    ensures
        ({
            let full = limits.max_positions is Some && processed >= limits.max_positions->0;
            let late = limits.max_seconds is Some && elapsed >= limits.max_seconds->0;
            let choice = run_choice(processed, limits, RunEvent::Ready { stop, elapsed });
            &&& choice.0 == processed
            &&& stop ==> choice.1 == RunAction::StopOnRequest
            &&& !stop && (full || late) ==> choice.1 == RunAction::StopAtLimit
            &&& !stop && !full && !late ==> choice.1 is Fetch
            &&& !stop && !full && !late && limits.max_positions is None ==> choice.1
                == RunAction::Fetch(limits.batch)
            &&& !stop && !full && !late && limits.max_positions is Some && limits.max_positions->0
                - processed <= usize::MAX ==> choice.1 == RunAction::Fetch(
                if limits.batch <= limits.max_positions->0 - processed {
                    limits.batch
                } else {
                    (limits.max_positions->0 - processed) as usize
                },
            )
        }),
{
}

/// A batch with keys is worked through and only an empty one ends a run as complete; after a
/// batch the run goes on, with a report where five seconds have passed since the last one.
pub proof fn law_batches_are_worked_and_reported(
    processed: u64,
    limits: RunLimits,
    empty: bool,
    since_report: u64,
)
    ensures
        run_choice(processed, limits, RunEvent::Fetched { empty }) == (
            processed as int,
            if empty {
                RunAction::StopComplete
            } else {
                RunAction::Begin
            },
        ),
        run_choice(processed, limits, RunEvent::Committed { since_report }) == (
            processed as int,
            if since_report >= 5 {
                RunAction::Report
            } else {
                RunAction::Continue
            },
        ),
{
}

/// The size of a batch: the batch asked for, or what the limit on positions leaves of it, and
/// one where that is nothing.
pub proof fn law_batch_size(processed: u64, limits: RunLimits)
    ensures
        limits.max_positions is None && limits.batch >= 1 ==> limits.take(processed)
            == limits.batch,
        limits.batch == 0 ==> limits.take(processed) == 0,
        limits.max_positions matches Some(limit) ==> limits.batch >= 1 ==> {
            &&& processed >= limit ==> limits.take(processed) == 1
            &&& processed < limit && limit - processed <= usize::MAX ==> limits.take(processed)
                == if limits.batch <= limit - processed {
                limits.batch as int
            } else {
                limit - processed
            }
        },
{
}

/// A run says why it ends only on request and when the frontier is empty.
pub proof fn law_only_two_ends_are_told(action: RunAction)
    ensures
        stop_text(action) == if action == RunAction::StopOnRequest {
            Some("stop requested; exiting after last committed batch"@)
        } else if action == RunAction::StopComplete {
            Some("frontier is empty; graph expansion is complete for this database"@)
        } else {
            None
        },
{
}

} // verus!
