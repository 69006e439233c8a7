//! The decisions of one run: detect, negotiate, upload, commit.
//!
//! The caller performs each action (a network round trip, the streamed
//! upload, the durable write of the baseline) and hands the result back as
//! an event. The baseline is committed only after the upload succeeded.

use vstd::prelude::*;
use crate::detect::{change_set, diff_metadata, lemma_no_change_against_itself, path_views};
use crate::negotiate::{answer_of, keep_needed, upload_set_from_response};
use crate::snapshot::{sorted_paths, FileMeta, Snapshot};

verus! {

/// The stage of the pipeline that failed a run.
#[derive(Clone, Copy, Debug, PartialEq, Eq)]
pub enum FailedStage {
    /// Building or compressing the archive failed.
    Encode,
    /// The connection failed, the stream broke or the remote refused.
    Transport,
    /// The new baseline could not be written after a successful upload.
    Commit,
}

/// How a run ended.
#[derive(Clone, Copy, Debug, PartialEq, Eq)]
pub enum RunOutcome {
    /// Nothing changed since the baseline: nothing was sent.
    NoChanges,
    /// The remote already holds every changed file: nothing was sent.
    NothingNeeded,
    /// The changes were uploaded and the baseline advanced.
    Synced,
    Failed(FailedStage),
}

/// Where a run stands, without its data.
#[derive(Clone, Copy, Debug, PartialEq, Eq)]
pub enum RunStage {
    Negotiating,
    Uploading,
    Committing,
    Finished(RunOutcome),
}

/// Where a run stands, with what the next step needs.
#[derive(Clone, Debug)]
pub enum RunState {
    /// Waiting for the remote's answer on these changed paths.
    Negotiating(Vec<String>),
    /// Waiting for the upload of these paths to end.
    Uploading(Vec<String>),
    /// Waiting for the baseline write to end.
    Committing,
    Finished(RunOutcome),
}

/// What the caller is to do next.
#[derive(Clone, Debug)]
pub enum Action {
    /// Ask the remote which of these paths it lacks.
    Negotiate(Vec<String>),
    /// Stream an archive of these paths, in this order, to the remote.
    Upload(Vec<String>),
    /// Write the run's current snapshot as the new baseline.
    Commit,
    /// The run is over.
    Stop(RunOutcome),
    /// The event did not fit the stage: nothing to do.
    Wait,
}

/// What the caller reports back.
#[derive(Clone, Debug)]
pub enum Event {
    /// The body of the remote's answer, or `None` where the negotiation call
    /// failed.
    Negotiated(Option<Vec<u8>>),
    /// The remote acknowledged the upload.
    Uploaded,
    UploadFailed(FailedStage),
    Committed,
    CommitFailed,
}

/// An event without its data.
#[derive(Clone, Copy, Debug, PartialEq, Eq)]
pub enum EventTag {
    Negotiated,
    Uploaded,
    UploadFailed(FailedStage),
    Committed,
    CommitFailed,
}

pub open spec fn stage_of(s: RunState) -> RunStage {
    match s {
        RunState::Negotiating(_) => RunStage::Negotiating,
        RunState::Uploading(_) => RunStage::Uploading,
        RunState::Committing => RunStage::Committing,
        RunState::Finished(o) => RunStage::Finished(o),
    }
}

pub open spec fn tag_of(e: Event) -> EventTag {
    match e {
        Event::Negotiated(_) => EventTag::Negotiated,
        Event::Uploaded => EventTag::Uploaded,
        Event::UploadFailed(f) => EventTag::UploadFailed(f),
        Event::Committed => EventTag::Committed,
        Event::CommitFailed => EventTag::CommitFailed,
    }
}

/// The stage a run starts in: finished at once when nothing changed.
pub open spec fn begin_stage(
    baseline: Map<Seq<char>, FileMeta>,
    current: Map<Seq<char>, FileMeta>,
    negotiate: bool,
) -> RunStage {
    if change_set(baseline, current).is_empty() {
        RunStage::Finished(RunOutcome::NoChanges)
    } else if negotiate {
        RunStage::Negotiating
    } else {
        RunStage::Uploading
    }
}

/// The stage after an event; `nothing_to_send` tells, for an answer of the
/// remote, whether it left no path to upload. An event that does not fit
/// the stage changes nothing.
pub open spec fn next_stage(stage: RunStage, ev: EventTag, nothing_to_send: bool) -> RunStage {
    match (stage, ev) {
        (RunStage::Negotiating, EventTag::Negotiated) => if nothing_to_send {
            RunStage::Finished(RunOutcome::NothingNeeded)
        } else {
            RunStage::Uploading
        },
        (RunStage::Uploading, EventTag::Uploaded) => RunStage::Committing,
        (RunStage::Uploading, EventTag::UploadFailed(f)) => RunStage::Finished(RunOutcome::Failed(f)),
        (RunStage::Committing, EventTag::Committed) => RunStage::Finished(RunOutcome::Synced),
        (RunStage::Committing, EventTag::CommitFailed) => RunStage::Finished(
            RunOutcome::Failed(FailedStage::Commit),
        ),
        _ => stage,
    }
}

/// The stage after a sequence of events.
pub open spec fn run_trace(stage: RunStage, evs: Seq<(EventTag, bool)>) -> RunStage
    decreases evs.len(),
{
    if evs.len() == 0 {
        stage
    } else {
        next_stage(run_trace(stage, evs.drop_last()), evs.last().0, evs.last().1)
    }
}

/// The stages in which the baseline may be (or has been) replaced.
pub open spec fn commit_allowed(stage: RunStage) -> bool {
    stage == RunStage::Committing || stage == RunStage::Finished(RunOutcome::Synced)
}

/// The action that a state asks for.
pub open spec fn action_for(s: RunState, a: Action) -> bool {
    match s {
        RunState::Negotiating(c) => a matches Action::Negotiate(x) && x@ == c@,
        RunState::Uploading(c) => a matches Action::Upload(x) && x@ == c@,
        RunState::Committing => a is Commit,
        RunState::Finished(o) => a == Action::Stop(o),
    }
}

/// A copy of a list of paths.
pub fn copy_paths(v: &Vec<String>) -> (r: Vec<String>)
    ensures
        r@ == v@,
{
    let r = v.clone();
    assert(r@ =~= v@);
    r
}

/// Starts a run: computes the change set of `current` against `baseline`
/// and says what to do first. A run with no changes ends at once and sends
/// nothing.
pub fn begin_run(baseline: &Snapshot, current: &Snapshot, negotiate: bool) -> (r: (RunState, Action))
    requires
        baseline.wf(),
        current.wf(),
    ensures
        stage_of(r.0) == begin_stage(baseline@, current@, negotiate),
        !(r.0 is Committing),
        action_for(r.0, r.1),
        r.0 matches RunState::Negotiating(c) ==> sorted_paths(path_views(c@))
            && path_views(c@).to_set() == change_set(baseline@, current@),
        r.0 matches RunState::Uploading(c) ==> sorted_paths(path_views(c@))
            && path_views(c@).to_set() == change_set(baseline@, current@),
{
    let changes = diff_metadata(baseline, current);
    if changes.len() == 0 {
        proof {
            assert(path_views(changes@).to_set() =~= Set::<Seq<char>>::empty());
        }
        return (RunState::Finished(RunOutcome::NoChanges), Action::Stop(RunOutcome::NoChanges));
    }
    proof {
        assert(path_views(changes@)[0] == changes@[0]@);
        assert(path_views(changes@).to_set().contains(changes@[0]@));
    }
    if negotiate {
        let c = copy_paths(&changes);
        (RunState::Negotiating(changes), Action::Negotiate(c))
    } else {
        let c = copy_paths(&changes);
        (RunState::Uploading(changes), Action::Upload(c))
    }
}

/// Tells whether `event` is one that `state` waits for.
pub open spec fn fits(state: RunState, event: Event) -> bool {
    match (state, event) {
        (RunState::Negotiating(_), Event::Negotiated(_)) => true,
        (RunState::Uploading(_), Event::Uploaded) => true,
        (RunState::Uploading(_), Event::UploadFailed(_)) => true,
        (RunState::Committing, Event::Committed) => true,
        (RunState::Committing, Event::CommitFailed) => true,
        _ => false,
    }
}

/// Takes a run one step on: from where it stands and what happened, the new
/// state and the next action. The upload set after a negotiation is the
/// change set trimmed by the answer, or the whole change set where the
/// negotiation failed or its answer could not be read. A commit is asked for only after a successful upload.
pub fn advance(state: RunState, event: Event) -> (r: (RunState, Action))
    ensures
        !fits(state, event) ==> stage_of(r.0) == stage_of(state) && r.1 == Action::Wait,
        fits(state, event) ==> !(r.0 is Negotiating) && action_for(r.0, r.1),
        stage_of(r.0) == next_stage(
            stage_of(state),
            tag_of(event),
            match (state, event) {
                (RunState::Negotiating(c), Event::Negotiated(b)) => match answer_of(b) {
                    Some(n) => keep_needed(path_views(c@), n.to_set()).len() == 0,
                    None => c@.len() == 0,
                },
                _ => false,
            },
        ),
        (state, event) matches (RunState::Negotiating(c), Event::Negotiated(b)) ==> match answer_of(b) {
            None => (r.0 matches RunState::Uploading(u) && path_views(u@) == path_views(c@)) || c@.len() == 0,
            Some(n) => (r.0 matches RunState::Uploading(u) && path_views(u@) == keep_needed(
                path_views(c@),
                n.to_set(),
            )) || keep_needed(path_views(c@), n.to_set()).len() == 0,
        },
        (state, event) matches (RunState::Negotiating(c), Event::Negotiated(_)) ==> (sorted_paths(path_views(c@))
            ==> (r.0 matches RunState::Uploading(u) ==> sorted_paths(path_views(u@)))),
        r.1 is Commit ==> stage_of(state) == RunStage::Uploading && event is Uploaded,
{
    match (state, event) {
        (RunState::Negotiating(changes), Event::Negotiated(body)) => {
            let files = upload_set_from_response(&changes, &body);
            proof {
                assert(path_views(files@).len() == files@.len());
                assert(path_views(changes@).len() == changes@.len());
            }
            if files.len() == 0 {
                (RunState::Finished(RunOutcome::NothingNeeded), Action::Stop(RunOutcome::NothingNeeded))
            } else {
                let c = copy_paths(&files);
                (RunState::Uploading(files), Action::Upload(c))
            }
        },
        (RunState::Uploading(_), Event::Uploaded) => (RunState::Committing, Action::Commit),
        (RunState::Uploading(_), Event::UploadFailed(f)) => (
            RunState::Finished(RunOutcome::Failed(f)),
            Action::Stop(RunOutcome::Failed(f)),
        ),
        (RunState::Committing, Event::Committed) => (
            RunState::Finished(RunOutcome::Synced),
            Action::Stop(RunOutcome::Synced),
        ),
        (RunState::Committing, Event::CommitFailed) => (
            RunState::Finished(RunOutcome::Failed(FailedStage::Commit)),
            Action::Stop(RunOutcome::Failed(FailedStage::Commit)),
        ),
        (s, _) => (s, Action::Wait),
    }
}

/// Running again with nothing changed on disk: the new scan equals the
/// baseline that the last run committed, so the run ends at once with no
/// changes and uploads nothing.
pub proof fn lemma_rerun_is_idle(committed: Map<Seq<char>, FileMeta>, negotiate: bool)
    ensures
        begin_stage(committed, committed, negotiate) == RunStage::Finished(RunOutcome::NoChanges),
{
    lemma_no_change_against_itself(committed);
}

/// A run that has not reached the commit reaches it only through a
/// successful upload: whatever happened, if the baseline may now be
/// replaced, some event was an acknowledged upload, taken while uploading.
pub proof fn lemma_commit_needs_upload(start: RunStage, evs: Seq<(EventTag, bool)>)
    requires
        !commit_allowed(start),
        commit_allowed(run_trace(start, evs)),
    ensures
        exists|i: int|
            0 <= i < evs.len() && (#[trigger] evs[i]).0 == EventTag::Uploaded
                && run_trace(start, evs.take(i)) == RunStage::Uploading,
    decreases evs.len(),
{
    let prev = run_trace(start, evs.drop_last());
    if commit_allowed(prev) {
        lemma_commit_needs_upload(start, evs.drop_last());
        let i = choose|i: int|
            0 <= i < evs.drop_last().len() && (#[trigger] evs.drop_last()[i]).0 == EventTag::Uploaded
                && run_trace(start, evs.drop_last().take(i)) == RunStage::Uploading;
        assert(evs.drop_last().take(i) =~= evs.take(i));
        assert(evs[i] == evs.drop_last()[i]);
    } else {
        let i = evs.len() - 1;
        assert(evs.take(i) =~= evs.drop_last());
        assert(evs[i] == evs.last());
    }
}

/// A finished run stays finished: after a failed upload no later event
/// leads to a commit.
pub proof fn lemma_finished_is_final(outcome: RunOutcome, evs: Seq<(EventTag, bool)>)
    ensures
        run_trace(RunStage::Finished(outcome), evs) == RunStage::Finished(outcome),
    decreases evs.len(),
{
    if evs.len() > 0 {
        lemma_finished_is_final(outcome, evs.drop_last());
    }
}

/// A failed upload ends the run without a commit, and nothing after it
/// changes that.
pub proof fn lemma_failed_upload_keeps_baseline(
    f: FailedStage,
    nothing_to_send: bool,
    later: Seq<(EventTag, bool)>,
)
    ensures
        next_stage(RunStage::Uploading, EventTag::UploadFailed(f), nothing_to_send)
            == RunStage::Finished(RunOutcome::Failed(f)),
        !commit_allowed(
            run_trace(next_stage(RunStage::Uploading, EventTag::UploadFailed(f), nothing_to_send), later),
        ),
{
    lemma_finished_is_final(RunOutcome::Failed(f), later);
}

} // verus!
