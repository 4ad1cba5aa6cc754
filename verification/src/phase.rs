//! The phases of one synchronisation and the events that move it from one
//! to the next. The caller performs what a phase stands for (the network
//! fetch, the update of the working directory) and reports how it went.

use vstd::prelude::*;
use crate::ancestry::MergeClass;
use crate::sync::{PullOutcome, PullPlan};

verus! {

/// Where a synchronisation stands.
#[derive(Clone, Copy, Debug, PartialEq, Eq, Structural)]
pub enum SyncPhase {
    /// Nothing is in progress.
    Idle,
    /// The remote head is being fetched.
    Fetching,
    /// The local head is being held against the remote head.
    Analyzing,
    /// The local reference is being moved to the remote head.
    FastForwarding,
    /// The two heads are being merged.
    Merging,
    /// The merge is being committed.
    Committing,
}

/// What happened in the current phase.
#[derive(Clone, Copy, Debug, PartialEq, Eq, Structural)]
pub enum SyncEvent {
    /// A pull was asked for.
    Start,
    /// The fetch brought the remote head.
    Fetched,
    /// The analysis gave this class.
    Classified(MergeClass),
    /// The local reference stands at the remote head.
    Forwarded,
    /// The merge left no conflict.
    MergedClean,
    /// The merge left conflicts for the caller.
    MergedWithConflicts,
    /// The merge is committed.
    Committed,
    /// The component at work reported a failure.
    Failed,
}

/// The phase that follows `phase` on `event`. A failure ends the
/// synchronisation whatever the phase. An event that the phase does not wait
/// for leaves it as it is.
pub open spec fn next_phase(phase: SyncPhase, event: SyncEvent) -> SyncPhase {
    match (phase, event) {
        (_, SyncEvent::Failed) => SyncPhase::Idle,
        (SyncPhase::Idle, SyncEvent::Start) => SyncPhase::Fetching,
        (SyncPhase::Fetching, SyncEvent::Fetched) => SyncPhase::Analyzing,
        (SyncPhase::Analyzing, SyncEvent::Classified(MergeClass::UpToDate)) => SyncPhase::Idle,
        (SyncPhase::Analyzing, SyncEvent::Classified(MergeClass::FastForward)) => {
            SyncPhase::FastForwarding
        },
        (SyncPhase::Analyzing, SyncEvent::Classified(MergeClass::Divergent)) => SyncPhase::Merging,
        (SyncPhase::FastForwarding, SyncEvent::Forwarded) => SyncPhase::Idle,
        (SyncPhase::Merging, SyncEvent::MergedClean) => SyncPhase::Committing,
        (SyncPhase::Merging, SyncEvent::MergedWithConflicts) => SyncPhase::Idle,
        (SyncPhase::Committing, SyncEvent::Committed) => SyncPhase::Idle,
        (p, _) => p,
    }
}

/// The phase reached from `phase` by a sequence of events.
pub open spec fn run(phase: SyncPhase, events: Seq<SyncEvent>) -> SyncPhase
    decreases events.len(),
{
    if events.len() == 0 {
        phase
    } else {
        next_phase(run(phase, events.drop_last()), events.last())
    }
}

/// The phase that follows `phase` on `event`.
pub fn advance(phase: SyncPhase, event: SyncEvent) -> (r: SyncPhase)
    ensures
        r == next_phase(phase, event),
{
    match event {
        SyncEvent::Failed => SyncPhase::Idle,
        SyncEvent::Start => match phase {
            SyncPhase::Idle => SyncPhase::Fetching,
            p => p,
        },
        SyncEvent::Fetched => match phase {
            SyncPhase::Fetching => SyncPhase::Analyzing,
            p => p,
        },
        SyncEvent::Classified(class) => match phase {
            SyncPhase::Analyzing => match class {
                MergeClass::UpToDate => SyncPhase::Idle,
                MergeClass::FastForward => SyncPhase::FastForwarding,
                MergeClass::Divergent => SyncPhase::Merging,
            },
            p => p,
        },
        SyncEvent::Forwarded => match phase {
            SyncPhase::FastForwarding => SyncPhase::Idle,
            p => p,
        },
        SyncEvent::MergedClean => match phase {
            SyncPhase::Merging => SyncPhase::Committing,
            p => p,
        },
        SyncEvent::MergedWithConflicts => match phase {
            SyncPhase::Merging => SyncPhase::Idle,
            p => p,
        },
        SyncEvent::Committed => match phase {
            SyncPhase::Committing => SyncPhase::Idle,
            p => p,
        },
    }
}

/// The class that the analysis of a pull gave, from how the pull ended.
pub open spec fn class_behind(outcome: PullOutcome) -> MergeClass {
    match outcome {
        PullOutcome::UpToDate => MergeClass::UpToDate,
        PullOutcome::FastForwarded(_) => MergeClass::FastForward,
        PullOutcome::Merged(_) => MergeClass::Divergent,
        PullOutcome::Conflicted(_) => MergeClass::Divergent,
    }
}

/// The phase in which a pull stands once its outcome is known and before
/// the caller has carried the outcome out: idle where nothing is left to do,
/// forwarding where the reference moves, merging where two heads were
/// merged.
pub fn phase_after_analysis(outcome: &PullOutcome) -> (r: SyncPhase)
    ensures
        r == run(
            SyncPhase::Idle,
            seq![SyncEvent::Start, SyncEvent::Fetched, SyncEvent::Classified(class_behind(*outcome))],
        ),
{
    proof {
        reveal_with_fuel(run, 4);
        let events = seq![
            SyncEvent::Start,
            SyncEvent::Fetched,
            SyncEvent::Classified(class_behind(*outcome)),
        ];
        assert(events.drop_last().last() == SyncEvent::Fetched);
        assert(events.drop_last().drop_last().last() == SyncEvent::Start);
    }
    let class = match outcome {
        PullOutcome::UpToDate => MergeClass::UpToDate,
        PullOutcome::FastForwarded(_) => MergeClass::FastForward,
        PullOutcome::Merged(_) => MergeClass::Divergent,
        PullOutcome::Conflicted(_) => MergeClass::Divergent,
    };
    let fetching = advance(SyncPhase::Idle, SyncEvent::Start);
    let analyzing = advance(fetching, SyncEvent::Fetched);
    advance(analyzing, SyncEvent::Classified(class))
}

/// A commit is reached only from a merge without conflicts, and a merge only
/// from the analysis of divergent heads: a fast-forward never commits.
pub proof fn lemma_commit_follows_clean_merge(phase: SyncPhase, event: SyncEvent)
    ensures
        next_phase(phase, event) == SyncPhase::Committing && phase != SyncPhase::Committing
            ==> phase == SyncPhase::Merging && event == SyncEvent::MergedClean,
        next_phase(phase, event) == SyncPhase::Merging && phase != SyncPhase::Merging ==> phase
            == SyncPhase::Analyzing && event == SyncEvent::Classified(MergeClass::Divergent),
        phase == SyncPhase::FastForwarding ==> next_phase(phase, event) == SyncPhase::Idle
            || next_phase(phase, event) == SyncPhase::FastForwarding,
{
}

/// The events of a pull that follows `plan`, where `clean` says whether a
/// merge left no conflict.
pub open spec fn events_of(plan: PullPlan, clean: bool) -> Seq<SyncEvent> {
    match plan {
        PullPlan::UpToDate => seq![
            SyncEvent::Start,
            SyncEvent::Fetched,
            SyncEvent::Classified(MergeClass::UpToDate),
        ],
        PullPlan::FastForward => seq![
            SyncEvent::Start,
            SyncEvent::Fetched,
            SyncEvent::Classified(MergeClass::FastForward),
            SyncEvent::Forwarded,
        ],
        PullPlan::Merge => if clean {
            seq![
                SyncEvent::Start,
                SyncEvent::Fetched,
                SyncEvent::Classified(MergeClass::Divergent),
                SyncEvent::MergedClean,
                SyncEvent::Committed,
            ]
        } else {
            seq![
                SyncEvent::Start,
                SyncEvent::Fetched,
                SyncEvent::Classified(MergeClass::Divergent),
                SyncEvent::MergedWithConflicts,
            ]
        },
        PullPlan::Unrelated => seq![
            SyncEvent::Start,
            SyncEvent::Fetched,
            SyncEvent::Classified(MergeClass::Divergent),
            SyncEvent::Failed,
        ],
    }
}

/// Whatever a pull plans, its events lead from `Idle` back to `Idle`, and
/// only the clean merge passes through `Committing`.
pub proof fn lemma_pull_returns_to_idle(plan: PullPlan, clean: bool)
    ensures
        run(SyncPhase::Idle, events_of(plan, clean)) == SyncPhase::Idle,
        run(SyncPhase::Idle, events_of(plan, clean).drop_last()) == SyncPhase::Committing <==> plan
            == PullPlan::Merge && clean,
{
    reveal_with_fuel(run, 6);
    let events = events_of(plan, clean);
    let e1 = events.drop_last();
    let e2 = e1.drop_last();
    let e3 = e2.drop_last();
    assert(e1.last() == events[events.len() - 2]);
    assert(e2.last() == events[events.len() - 3]);
    if e3.len() > 0 {
        let e4 = e3.drop_last();
        assert(e3.last() == events[events.len() - 4]);
        if e4.len() > 0 {
            assert(e4.last() == events[events.len() - 5]);
        }
    }
}

/// A failure ends a synchronisation wherever it stands.
pub proof fn lemma_failure_ends_run(phase: SyncPhase, events: Seq<SyncEvent>)
    requires
        events.len() > 0,
        events.last() == SyncEvent::Failed,
    ensures
        run(phase, events) == SyncPhase::Idle,
{
}

} // verus!
