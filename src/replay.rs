//! Rebuilding one file by replaying its history, as a state machine.
//!
//! The machine decides; the caller does the outside work. Each call of
//! [`Replay::step`] takes the answer to the previous action and returns the
//! next action, until [`Action::Finish`] or an error. The caller holds the lock
//! from `AcquireLock` until it drops the machine, whatever the outcome.
//!
//! The replay runs where the history begins (the source of a first move,
//! else the first record's path) and follows the file from record to record,
//! so a history through renames is rebuilt at the paths it passed through.
//! Before any baseline is put in place, the fingerprint where the history
//! ends (the last record's path) is checked: it must be one the history
//! accounts for, the last record's `hash_after` or what a finished replay of
//! the same log leaves (the `hash_after` of the last record not rejected, or
//! the baseline's). A file changed outside the history is reported
//! (`ExternalModification`), not overwritten unseen, while running the same
//! reconstruction again passes.
//!
//! Further policies are fixed here. The lock is tried once and never waited
//! for: contention is `LockBusy` at once. The expected fingerprint moves on to
//! each record's `hash_after` also when the record is rejected and its effect
//! skipped, so the check before a later record fails with
//! `ExternalModification` unless the skipped edit left the content unchanged.
//! A final fingerprint other than the expected one is reported in
//! `Finish { verified: false, .. }` and is no error, since the file has been
//! rewritten by then. A rejected delete leaves the file in place and counts
//! it as present. A snapshot file that cannot be found falls back to the
//! empty slate when the history begins by creating the file, else the replay
//! stops with `NoBaseline`.
use vstd::prelude::*;
use crate::entry::{clone_opt, opt_eq, opt_view, LogEntry, Operation, Status};
use crate::lineage::{
    baseline_of, begins_with_create, lineage, lineage_of, select_baseline, starts_with_create, Baseline,
};
use crate::order::chronological;

verus! {

/// Why a reconstruction stopped.
#[derive(Clone, Debug, PartialEq, Eq)]
pub enum ReplayError {
    /// The history has no snapshot and does not begin by creating the file.
    NoBaseline,
    /// Another process holds the lock on the target.
    LockBusy,
    /// The file's fingerprint before this edit is not the one its history leads to.
    ExternalModification { edit_id: String },
    /// The patch tool refused this edit's diff.
    PatchFailed { edit_id: String },
    /// This edit needs a diff artifact and names none.
    MissingDiff { edit_id: String },
    /// This move names no source path.
    MissingSource { edit_id: String },
    /// The event does not answer the action last asked for.
    UnexpectedEvent,
}

/// The caller's answer to the last action.
#[derive(Clone, Debug, PartialEq, Eq)]
pub enum Event {
    /// Begins the replay; the first event.
    Start,
    /// Answers `AcquireLock`: whether the lock was taken.
    Lock(bool),
    /// Answers `ClearTarget`, `RemoveFile` and `Skip`.
    Done,
    /// Answers `RestoreCheckpoint`: whether the snapshot existed and was copied.
    Restored(bool),
    /// Answers `Fingerprint`: the file's fingerprint, `None` when there is no file.
    Fingerprint(Option<String>),
    /// Answers `ApplyDiff`: whether the patch tool succeeded.
    Patched(bool),
    /// Answers `MoveFile`: whether the source existed and was renamed.
    Moved(bool),
}

/// Outside work the machine asks for.
#[derive(Clone, Debug, PartialEq, Eq)]
pub enum Action {
    /// Take the exclusive lock that belongs to `path`, without waiting.
    AcquireLock { path: String },
    /// Copy the snapshot to `target`, where the history begins.
    RestoreCheckpoint { checkpoint_file: String, target: String },
    /// Remove the files at `path` and at `origin`, where the history begins, if there are any.
    ClearTarget { path: String, origin: String },
    /// Report the fingerprint of `path`.
    Fingerprint { path: String },
    /// Apply the diff artifact forward to `target`, creating its directories.
    ApplyDiff { edit_id: String, diff_file: String, target: String },
    /// Remove the file at `path`.
    RemoveFile { path: String },
    /// Rename `from` to `to` if `from` exists.
    MoveFile { from: String, to: String },
    /// Nothing to do for this record (rejected, or of an unknown kind).
    Skip { edit_id: String, unknown: bool },
    /// The replay is over; `verified` tells whether the final fingerprint is
    /// the expected one, `baseline_drift` whether the restored snapshot's was not.
    Finish { verified: bool, baseline_drift: bool },
}

/// Which answer the machine waits for.
#[derive(Clone, Copy, Debug, PartialEq, Eq, Structural)]
pub enum Phase {
    Start,
    AwaitLock,
    AwaitPrior,
    AwaitRestore,
    AwaitBaselineFingerprint,
    AwaitClear,
    AwaitCheck,
    AwaitPatch,
    AwaitRemove,
    AwaitMove,
    AwaitSkip,
    AwaitFinal,
    Finished,
    Failed,
}

/// The replay of one file's history.
pub struct Replay {
    /// The path whose content is rebuilt, and whose lock is held.
    pub target: String,
    /// The history, oldest record first.
    pub entries: Vec<LogEntry>,
    pub baseline: Baseline,
    pub phase: Phase,
    /// The record being replayed.
    pub pos: usize,
    /// Where the file is now: where its history begins, then the path of
    /// the last record replayed.
    pub current_path: String,
    /// Whether the file exists now.
    pub present: bool,
    /// The fingerprint the file should have now.
    pub expected: Option<String>,
    /// Whether the restored snapshot's fingerprint differed from the recorded one.
    pub drift: bool,
}

/// `m` waiting in phase `p`.
pub open spec fn in_phase(m: Replay, p: Phase) -> Replay {
    Replay { phase: p, ..m }
}

/// The replay stops with error `e`; a failed machine accepts no further event.
pub open spec fn fail(m: Replay, e: ReplayError) -> (Replay, Result<Action, ReplayError>) {
    (in_phase(m, Phase::Failed), Err(e))
}

/// The action that carries out record `e`, with the phase that awaits its answer.
pub open spec fn effect_of(e: LogEntry) -> (Phase, Result<Action, ReplayError>) {
    if e.status == Status::Rejected {
        (Phase::AwaitSkip, Ok(Action::Skip { edit_id: e.edit_id, unknown: false }))
    } else {
        match e.operation {
            Operation::Create | Operation::Replace | Operation::Edit => match e.diff_file {
                Some(d) => (
                    Phase::AwaitPatch,
                    Ok(Action::ApplyDiff { edit_id: e.edit_id, diff_file: d, target: e.file_path }),
                ),
                None => (Phase::Failed, Err(ReplayError::MissingDiff { edit_id: e.edit_id })),
            },
            Operation::Delete => (Phase::AwaitRemove, Ok(Action::RemoveFile { path: e.file_path })),
            Operation::Move => match e.source_path {
                Some(s) => (Phase::AwaitMove, Ok(Action::MoveFile { from: s, to: e.file_path })),
                None => (Phase::Failed, Err(ReplayError::MissingSource { edit_id: e.edit_id })),
            },
            Operation::Unknown => (
                Phase::AwaitSkip,
                Ok(Action::Skip { edit_id: e.edit_id, unknown: true }),
            ),
        }
    }
}

/// Turns to the record at `m.pos`: its fingerprint check comes first when the
/// file exists and the record does not create it. After the last record,
/// asks for the final fingerprint.
#[verifier::opaque]
pub open spec fn advance(m: Replay) -> (Replay, Result<Action, ReplayError>) {
    if m.pos >= m.entries@.len() {
        (in_phase(m, Phase::AwaitFinal), Ok(Action::Fingerprint { path: m.current_path }))
    } else if m.present && m.entries@[m.pos as int].operation != Operation::Create {
        (in_phase(m, Phase::AwaitCheck), Ok(Action::Fingerprint { path: m.current_path }))
    } else {
        let (p, r) = effect_of(m.entries@[m.pos as int]);
        (in_phase(m, p), r)
    }
}

/// The state after the record at `m.pos` is closed, with the file existing or
/// not. The expected fingerprint becomes the record's `hash_after`, also for
/// a record whose effect was skipped; the file is now at the record's path
/// (the destination of a move, also when the move was skipped).
pub open spec fn closed(m: Replay, present: bool) -> Replay {
    let e = m.entries@[m.pos as int];
    Replay { pos: (m.pos + 1) as usize, present: present, expected: e.hash_after, current_path: e.file_path, ..m }
}

/// Closes the record at `m.pos` and turns to the next.
pub open spec fn complete(m: Replay, present: bool) -> (Replay, Result<Action, ReplayError>) {
    advance(closed(m, present))
}

/// The restored snapshot's fingerprint `h` is not the one recorded with it.
pub open spec fn drifted(b: Baseline, h: Option<String>) -> bool {
    match b {
        Baseline::Checkpoint { hash: Some(x), .. } => opt_view(h) != Some(x@),
        _ => false,
    }
}

/// The path where the history of `m` ends: the last record's path (the
/// destination of a last move), or the target for an empty history.
pub open spec fn history_end(m: Replay) -> String {
    if m.entries@.len() > 0 {
        m.entries@.last().file_path
    } else {
        m.target
    }
}

/// The fingerprint of the last record of `l` that is not rejected; with no
/// such record, that of the baseline.
pub open spec fn last_surviving_hash(l: Seq<LogEntry>, b: Baseline) -> Option<Seq<char>>
    decreases l.len(),
{
    if l.len() == 0 {
        opt_view(baseline_hash(b))
    } else if l.last().status != Status::Rejected {
        opt_view(l.last().hash_after)
    } else {
        last_surviving_hash(l.drop_last(), b)
    }
}

/// Fingerprint `h`, found where history `l` ends, is one the history accounts
/// for: the one its last record left, or the one a finished replay of it
/// leaves when rejected records are skipped.
pub open spec fn settled(l: Seq<LogEntry>, b: Baseline, h: Option<Seq<char>>) -> bool {
    h == opt_view(l.last().hash_after) || h == last_surviving_hash(l, b)
}

/// The fingerprint recorded with a baseline; none for the empty slate.
pub open spec fn baseline_hash(b: Baseline) -> Option<String> {
    match b {
        Baseline::Checkpoint { hash, .. } => hash,
        Baseline::Clean => None,
    }
}

/// Clears the path where the history ends and the path where it begins: the
/// empty slate.
pub open spec fn clear(m: Replay) -> (Replay, Result<Action, ReplayError>) {
    (
        in_phase(m, Phase::AwaitClear),
        Ok(Action::ClearTarget { path: history_end(m), origin: m.current_path }),
    )
}

/// Puts the baseline in place at the path where the history begins.
pub open spec fn begin_baseline(m: Replay) -> (Replay, Result<Action, ReplayError>) {
    match m.baseline {
        Baseline::Checkpoint { checkpoint_file, .. } => (
            in_phase(m, Phase::AwaitRestore),
            Ok(Action::RestoreCheckpoint { checkpoint_file, target: m.current_path }),
        ),
        Baseline::Clean => clear(m),
    }
}

/// The machine's transition: the next state and what it asks for.
pub open spec fn next(m: Replay, ev: Event) -> (Replay, Result<Action, ReplayError>) {
    let has_entry = m.pos < m.entries@.len();
    match (m.phase, ev) {
        (Phase::Start, Event::Start) => (
            in_phase(m, Phase::AwaitLock),
            Ok(Action::AcquireLock { path: m.target }),
        ),
        (Phase::AwaitLock, Event::Lock(taken)) => if !taken {
            fail(m, ReplayError::LockBusy)
        } else {
            (in_phase(m, Phase::AwaitPrior), Ok(Action::Fingerprint { path: history_end(m) }))
        },
        (Phase::AwaitPrior, Event::Fingerprint(h)) => if m.entries@.len() == 0 {
            fail(m, ReplayError::UnexpectedEvent)
        } else if !settled(m.entries@, m.baseline, opt_view(h)) {
            fail(m, ReplayError::ExternalModification { edit_id: m.entries@.last().edit_id })
        } else {
            begin_baseline(m)
        },
        (Phase::AwaitRestore, Event::Restored(copied)) => if copied {
            (
                in_phase(m, Phase::AwaitBaselineFingerprint),
                Ok(Action::Fingerprint { path: m.current_path }),
            )
        } else if starts_with_create(m.entries@) {
            clear(m)
        } else {
            fail(m, ReplayError::NoBaseline)
        },
        (Phase::AwaitBaselineFingerprint, Event::Fingerprint(h)) => advance(
            Replay { present: true, expected: h, drift: drifted(m.baseline, h), ..m },
        ),
        (Phase::AwaitClear, Event::Done) => advance(Replay { present: false, expected: None, ..m }),
        (Phase::AwaitCheck, Event::Fingerprint(h)) => if !has_entry {
            fail(m, ReplayError::UnexpectedEvent)
        } else if opt_view(h) == opt_view(m.expected) {
            let (p, r) = effect_of(m.entries@[m.pos as int]);
            (in_phase(m, p), r)
        } else {
            fail(m, ReplayError::ExternalModification { edit_id: m.entries@[m.pos as int].edit_id })
        },
        (Phase::AwaitPatch, Event::Patched(ok)) => if !has_entry {
            fail(m, ReplayError::UnexpectedEvent)
        } else if ok {
            complete(m, true)
        } else {
            fail(m, ReplayError::PatchFailed { edit_id: m.entries@[m.pos as int].edit_id })
        },
        (Phase::AwaitRemove, Event::Done) => if !has_entry {
            fail(m, ReplayError::UnexpectedEvent)
        } else {
            complete(m, false)
        },
        (Phase::AwaitMove, Event::Moved(existed)) => if !has_entry {
            fail(m, ReplayError::UnexpectedEvent)
        } else {
            complete(m, m.present || existed)
        },
        (Phase::AwaitSkip, Event::Done) => if !has_entry {
            fail(m, ReplayError::UnexpectedEvent)
        } else {
            complete(m, m.present)
        },
        (Phase::AwaitFinal, Event::Fingerprint(h)) => (
            in_phase(m, Phase::Finished),
            Ok(
                Action::Finish {
                    verified: opt_view(h) == opt_view(m.expected),
                    baseline_drift: m.drift,
                },
            ),
        ),
        _ => fail(m, ReplayError::UnexpectedEvent),
    }
}

fn effect(e: &LogEntry) -> (r: (Phase, Result<Action, ReplayError>))
    ensures
        r == effect_of(*e),
{
    if e.status == Status::Rejected {
        return (Phase::AwaitSkip, Ok(Action::Skip { edit_id: e.edit_id.clone(), unknown: false }));
    }
    match e.operation {
        Operation::Create | Operation::Replace | Operation::Edit => match &e.diff_file {
            Some(d) => (
                Phase::AwaitPatch,
                Ok(
                    Action::ApplyDiff {
                        edit_id: e.edit_id.clone(),
                        diff_file: d.clone(),
                        target: e.file_path.clone(),
                    },
                ),
            ),
            None => (Phase::Failed, Err(ReplayError::MissingDiff { edit_id: e.edit_id.clone() })),
        },
        Operation::Delete => (
            Phase::AwaitRemove,
            Ok(Action::RemoveFile { path: e.file_path.clone() }),
        ),
        Operation::Move => match &e.source_path {
            Some(s) => (
                Phase::AwaitMove,
                Ok(Action::MoveFile { from: s.clone(), to: e.file_path.clone() }),
            ),
            None => (Phase::Failed, Err(ReplayError::MissingSource { edit_id: e.edit_id.clone() })),
        },
        Operation::Unknown => (
            Phase::AwaitSkip,
            Ok(Action::Skip { edit_id: e.edit_id.clone(), unknown: true }),
        ),
    }
}

/// Where history `l` begins: the source of a first move, else the first record's path.
pub open spec fn start_path(l: Seq<LogEntry>) -> String {
    if l[0].operation == Operation::Move && l[0].source_path is Some {
        l[0].source_path->0
    } else {
        l[0].file_path
    }
}

/// `m` is a replay of history `l` for `path`, from baseline `b`, not yet begun.
pub open spec fn is_fresh(m: Replay, path: String, l: Seq<LogEntry>, b: Baseline) -> bool {
    &&& m.target == path
    &&& m.entries@ == l
    &&& m.baseline == b
    &&& m.phase == Phase::Start
    &&& m.pos == 0
    &&& m.current_path == start_path(l)
    &&& !m.present
    &&& m.expected is None
    &&& !m.drift
}

/// Prepares the rebuilding of the file at `file_path` from its conversation's
/// log: nothing to do (`None`) when no record belongs to its history; the
/// history's missing baseline as an error; else a replay about to begin,
/// locked on `file_path` and placed where the history begins (`start_path`).
pub fn plan_reconstruction(entries: &Vec<LogEntry>, file_path: &String) -> (r: Result<
    Option<Replay>,
    ReplayError,
>)
    ensures
        ({
            let l = lineage_of(chronological(entries@), file_path@);
            &&& l.len() == 0 ==> r is Ok && r->Ok_0 is None
            &&& l.len() > 0 ==> match baseline_of(l) {
                Err(e) => r == Err::<Option<Replay>, ReplayError>(e),
                Ok(b) => r is Ok && r->Ok_0 is Some && is_fresh(r->Ok_0->Some_0, *file_path, l, b),
            }
        }),
{
    let l = lineage(entries, file_path);
    if l.len() == 0 {
        return Ok(None);
    }
    let baseline = select_baseline(&l)?;
    let start = if l[0].operation == Operation::Move {
        match &l[0].source_path {
            Some(src) => src.clone(),
            None => l[0].file_path.clone(),
        }
    } else {
        l[0].file_path.clone()
    };
    Ok(
        Some(
            Replay {
                target: file_path.clone(),
                entries: l,
                baseline,
                phase: Phase::Start,
                pos: 0,
                current_path: start,
                present: false,
                expected: None,
                drift: false,
            },
        ),
    )
}

/// A replay begins by taking the lock on its target, before it changes anything.
pub proof fn lemma_lock_comes_first(m: Replay, path: String, l: Seq<LogEntry>, b: Baseline)
    requires
        is_fresh(m, path, l, b),
    ensures
        next(m, Event::Start).0.phase == Phase::AwaitLock,
        next(m, Event::Start).1 == Ok::<Action, ReplayError>(Action::AcquireLock { path }),
{
}

/// A lock held elsewhere ends the replay at once with `LockBusy`: the machine
/// does not wait, and asks for nothing more.
pub proof fn lemma_lock_busy(m: Replay, ev: Event)
    requires
        m.phase == Phase::AwaitLock,
    ensures
        next(m, Event::Lock(false)).1 == Err::<Action, ReplayError>(ReplayError::LockBusy),
        next(next(m, Event::Lock(false)).0, ev).1 == Err::<Action, ReplayError>(
            ReplayError::UnexpectedEvent,
        ),
{
}

/// A fingerprint other than the expected one, taken before a record's effect,
/// ends the replay with `ExternalModification` naming that record; no effect
/// of it or of any later record is asked for.
pub proof fn lemma_external_modification(m: Replay, h: Option<String>, ev: Event)
    requires
        m.phase == Phase::AwaitCheck,
        m.pos < m.entries@.len(),
        opt_view(h) != opt_view(m.expected),
    ensures
        next(m, Event::Fingerprint(h)).1 == Err::<Action, ReplayError>(
            ReplayError::ExternalModification { edit_id: m.entries@[m.pos as int].edit_id },
        ),
        next(next(m, Event::Fingerprint(h)).0, ev).1 == Err::<Action, ReplayError>(
            ReplayError::UnexpectedEvent,
        ),
{
}

/// Once a record's effect is carried out (a diff applied, a file removed or
/// moved, or the record skipped), the file is expected at the record's path
/// with the record's `hash_after`. When the file exists and the next record
/// does not create it anew, the machine asks for that fingerprint, and the next
/// record's effect is asked for only if the answer equals that `hash_after`.
pub proof fn lemma_hash_chain(m: Replay, ev: Event, h: Option<String>)
    requires
        m.phase == Phase::AwaitPatch || m.phase == Phase::AwaitRemove || m.phase
            == Phase::AwaitMove || m.phase == Phase::AwaitSkip,
        m.pos + 1 < m.entries@.len() <= usize::MAX,
    ensures
        ({
            let (m2, r) = next(m, ev);
            let e = m.entries@[m.pos as int];
            &&& r is Ok ==> m2.pos == m.pos + 1 && m2.expected == e.hash_after
                && m2.current_path == e.file_path
            &&& r is Ok && m2.present && m.entries@[m.pos + 1].operation != Operation::Create ==> {
                &&& m2.phase == Phase::AwaitCheck
                &&& r == Ok::<Action, ReplayError>(Action::Fingerprint { path: e.file_path })
                &&& next(m2, Event::Fingerprint(h)).1 is Ok ==> opt_view(h) == opt_view(
                    e.hash_after,
                )
            }
        }),
{
    reveal(advance);
}

/// Before a baseline is put in place, the fingerprint where the history ends
/// is checked: one the history does not account for (see `settled`) ends the
/// replay with `ExternalModification`, before any file is changed, and
/// nothing more is asked for.
pub proof fn lemma_change_detected_before_baseline(m: Replay, h: Option<String>, ev: Event)
    requires
        m.phase == Phase::AwaitPrior,
        m.entries@.len() > 0,
        !settled(m.entries@, m.baseline, opt_view(h)),
    ensures
        next(m, Event::Fingerprint(h)).1 == Err::<Action, ReplayError>(
            ReplayError::ExternalModification { edit_id: m.entries@.last().edit_id },
        ),
        next(next(m, Event::Fingerprint(h)).0, ev).1 == Err::<Action, ReplayError>(
            ReplayError::UnexpectedEvent,
        ),
{
}

/// A replay asks first for the lock, then for the fingerprint where its history ends.
pub proof fn lemma_lock_then_check(m: Replay)
    requires
        m.phase == Phase::AwaitLock,
    ensures
        next(m, Event::Lock(true)).1 == Ok::<Action, ReplayError>(
            Action::Fingerprint { path: history_end(m) },
        ),
        next(m, Event::Lock(true)).0.phase == Phase::AwaitPrior,
{
}

/// A record that is not rejected is carried out forward: its diff applied to
/// its path, its file removed, or its move made; only an unknown kind is skipped.
/// A rejected record is always skipped.
pub proof fn lemma_effects(e: LogEntry)
    ensures
        e.status == Status::Rejected ==> effect_of(e).1 == Ok::<Action, ReplayError>(
            Action::Skip { edit_id: e.edit_id, unknown: false },
        ),
        e.status != Status::Rejected && e.diff_file is Some && (e.operation == Operation::Create
            || e.operation == Operation::Replace || e.operation == Operation::Edit) ==> effect_of(
            e,
        ).1 == Ok::<Action, ReplayError>(
            Action::ApplyDiff {
                edit_id: e.edit_id,
                diff_file: e.diff_file->0,
                target: e.file_path,
            },
        ),
        e.status != Status::Rejected && e.operation == Operation::Delete ==> effect_of(e).1 == Ok::<
            Action,
            ReplayError,
        >(Action::RemoveFile { path: e.file_path }),
        e.status != Status::Rejected && e.operation == Operation::Move && e.source_path is Some
            ==> effect_of(e).1 == Ok::<Action, ReplayError>(
            Action::MoveFile { from: e.source_path->0, to: e.file_path },
        ),
{
}

/// An action that carries out (or skips) one record.
pub open spec fn is_effect(a: Action) -> bool {
    a is ApplyDiff || a is RemoveFile || a is MoveFile || a is Skip
}

/// The effect of each record of `l`, in order.
pub open spec fn requested_effects(l: Seq<LogEntry>) -> Seq<Action> {
    l.map_values(|e: LogEntry| effect_of(e).1->Ok_0)
}

/// A model of the file system: the fingerprint of the file at each path.
pub type Disk = Map<Seq<char>, Option<String>>;

/// The fingerprint at `p` on disk `d`; `None` where there is no file.
pub open spec fn at(d: Disk, p: Seq<char>) -> Option<String> {
    if d.contains_key(p) {
        d[p]
    } else {
        None
    }
}


/// How disk `d` answers action `a` of machine `m`, and the disk after it,
/// when every step succeeds: the lock is free, a snapshot has its recorded
/// fingerprint, applying a record's diff gives the file the record's
/// `hash_after`, and a rename moves the file's fingerprint with it.
pub open spec fn disk_answer(m: Replay, a: Action, d: Disk) -> (Event, Disk) {
    match a {
        Action::AcquireLock { .. } => (Event::Lock(true), d),
        Action::Fingerprint { path } => (Event::Fingerprint(at(d, path@)), d),
        Action::RestoreCheckpoint { target, .. } => (
            Event::Restored(true),
            d.insert(target@, baseline_hash(m.baseline)),
        ),
        Action::ClearTarget { path, origin } => (
            Event::Done,
            d.insert(path@, None).insert(origin@, None),
        ),
        Action::ApplyDiff { target, .. } => (
            Event::Patched(true),
            d.insert(target@, m.entries@[m.pos as int].hash_after),
        ),
        Action::RemoveFile { path } => (Event::Done, d.insert(path@, None)),
        Action::MoveFile { from, to } => if at(d, from@) is Some {
            (Event::Moved(true), d.insert(to@, at(d, from@)).insert(from@, None))
        } else {
            (Event::Moved(false), d)
        },
        _ => (Event::Done, d),
    }
}

/// A run of machine `m`, which has just asked for `a`, against disk `d`, over
/// at most `n` further steps: the effects asked for, the `Finish` action if
/// the run got there, and the disk at the end.
#[verifier::opaque]
pub open spec fn disk_run(m: Replay, a: Action, d: Disk, n: nat) -> (
    Seq<Action>,
    Option<Action>,
    Disk,
)
    decreases n,
{
    let (ev, d2) = disk_answer(m, a, d);
    let (rest, end, dn) = if a is Finish {
        (Seq::<Action>::empty(), Some(a), d)
    } else if n == 0 {
        (Seq::<Action>::empty(), None, d2)
    } else {
        let (m2, r) = next(m, ev);
        match r {
            Ok(a2) => disk_run(m2, a2, d2, (n - 1) as nat),
            Err(_) => (Seq::<Action>::empty(), None, d2),
        }
    };
    (
        if is_effect(a) {
            seq![a] + rest
        } else {
            rest
        },
        end,
        dn,
    )
}

/// Record `e` can be replayed forward after a state with the file at
/// `prev_path` and fingerprint `prev_hash`: it is neither rejected nor of an
/// unknown kind, names what its effect needs, a delete leaves no file, and a
/// move takes the existing file from `prev_path` to another path unchanged.
pub open spec fn replayable_after(
    e: LogEntry,
    prev_path: Seq<char>,
    prev_hash: Option<Seq<char>>,
) -> bool {
    &&& e.status != Status::Rejected
    &&& e.operation != Operation::Unknown
    &&& effect_of(e).1 is Ok
    &&& e.operation == Operation::Delete ==> opt_view(e.hash_after) is None
    &&& e.operation == Operation::Move ==> {
        &&& opt_view(e.source_path) == Some(prev_path)
        &&& e.file_path@ != prev_path
        &&& prev_hash is Some
        &&& opt_view(e.hash_after) == prev_hash
    }
}

/// Record `e`, the last of its history, can be replayed after a state with
/// the file at `prev_path` and fingerprint `prev_hash`: forward, or it is a
/// rejected record, not a move, on the file where it is.
pub open spec fn replayable_last(
    e: LogEntry,
    prev_path: Seq<char>,
    prev_hash: Option<Seq<char>>,
) -> bool {
    replayable_after(e, prev_path, prev_hash) || (e.status == Status::Rejected && e.operation
        != Operation::Move && e.file_path@ == prev_path)
}

/// The path the file is at before record `i`, in a replay from `pos` begun with the file at `path`.
pub open spec fn prev_path_at(l: Seq<LogEntry>, pos: int, path: Seq<char>, i: int) -> Seq<char> {
    if i == pos {
        path
    } else {
        l[i - 1].file_path@
    }
}

/// The fingerprint expected before record `i`, in a replay from `pos` begun with `hash`.
pub open spec fn prev_hash_at(
    l: Seq<LogEntry>,
    pos: int,
    hash: Option<Seq<char>>,
    i: int,
) -> Option<Seq<char>> {
    if i == pos {
        hash
    } else {
        opt_view(l[i - 1].hash_after)
    }
}

/// The records of `l` from `pos` on can be replayed, the one at `pos` after a
/// state with the file at `path` and fingerprint `hash`: each forward, but
/// the last, which may also be a rejected edit skipped.
pub open spec fn replayable_from(
    l: Seq<LogEntry>,
    pos: int,
    path: Seq<char>,
    hash: Option<Seq<char>>,
) -> bool {
    forall|i: int|
        pos <= i < l.len() ==> if i + 1 < l.len() {
            replayable_after(
                #[trigger] l[i],
                prev_path_at(l, pos, path, i),
                prev_hash_at(l, pos, hash, i),
            )
        } else {
            replayable_last(l[i], prev_path_at(l, pos, path, i), prev_hash_at(l, pos, hash, i))
        }
}

/// The fingerprint that a replay of `l` from `pos`, begun with `hash`, leaves
/// where the history ends: the last record's `hash_after`, or, when that
/// record is rejected and skipped, the fingerprint before it.
pub open spec fn final_hash(l: Seq<LogEntry>, pos: int, hash: Option<Seq<char>>) -> Option<
    Seq<char>,
> {
    if pos >= l.len() {
        hash
    } else if l.last().status == Status::Rejected {
        prev_hash_at(l, pos, hash, l.len() - 1)
    } else {
        opt_view(l.last().hash_after)
    }
}

/// The state an effect's successful answer leaves the file in.
pub open spec fn present_after(m: Replay, a: Action) -> bool {
    match a {
        Action::ApplyDiff { .. } => true,
        Action::RemoveFile { .. } => false,
        Action::MoveFile { .. } => true,
        _ => m.present,
    }
}

proof fn lemma_effect_answered(m: Replay, d: Disk)
    requires
        m.pos < m.entries@.len() <= usize::MAX,
        replayable_last(m.entries@[m.pos as int], m.current_path@, opt_view(m.expected)),
        opt_view(at(d, m.current_path@)) == opt_view(m.expected),
        m.phase == effect_of(m.entries@[m.pos as int]).0,
    ensures
        ({
            let e = m.entries@[m.pos as int];
            let a = effect_of(e).1->Ok_0;
            let (ev, d2) = disk_answer(m, a, d);
            &&& next(m, ev) == advance(closed(m, present_after(m, a)))
            &&& opt_view(at(d2, e.file_path@)) == if e.status == Status::Rejected {
                opt_view(m.expected)
            } else {
                opt_view(e.hash_after)
            }
            &&& e.status == Status::Rejected ==> d2 == d
        }),
{
    let e = m.entries@[m.pos as int];
    let a = effect_of(e).1->Ok_0;
    if e.status == Status::Rejected {
        assert(a is Skip);
        return;
    }
    match e.operation {
        Operation::Move => {
            let from = e.source_path->0;
            assert(at(d, from@) is Some);
            assert(disk_answer(m, a, d).0 == Event::Moved(true));
        },
        _ => {},
    }
}

proof fn lemma_replayable_shift(l: Seq<LogEntry>, pos: int, path: Seq<char>, hash: Option<Seq<char>>)
    requires
        0 <= pos < l.len(),
        replayable_from(l, pos, path, hash),
    ensures
        replayable_last(l[pos], path, hash),
        pos + 1 < l.len() ==> replayable_after(l[pos], path, hash),
        pos + 1 < l.len() ==> replayable_from(
            l,
            pos + 1,
            l[pos].file_path@,
            opt_view(l[pos].hash_after),
        ),
        l[pos].status != Status::Rejected ==> final_hash(l, pos, hash) == final_hash(
            l,
            pos + 1,
            opt_view(l[pos].hash_after),
        ),
        l[pos].status == Status::Rejected ==> pos + 1 == l.len(),
{
    if pos + 1 < l.len() {
        assert(replayable_after(l[pos], path, hash));
        assert forall|i: int| pos + 1 <= i < l.len() implies (if i + 1 < l.len() {
            replayable_after(
                #[trigger] l[i],
                prev_path_at(l, pos + 1, l[pos].file_path@, i),
                prev_hash_at(l, pos + 1, opt_view(l[pos].hash_after), i),
            )
        } else {
            replayable_last(
                l[i],
                prev_path_at(l, pos + 1, l[pos].file_path@, i),
                prev_hash_at(l, pos + 1, opt_view(l[pos].hash_after), i),
            )
        }) by {
            assert(prev_path_at(l, pos + 1, l[pos].file_path@, i) == prev_path_at(l, pos, path, i));
            assert(prev_hash_at(l, pos + 1, opt_view(l[pos].hash_after), i) == prev_hash_at(
                l,
                pos,
                hash,
                i,
            ));
        }
    } else {
        assert(replayable_last(l[pos], path, hash));
    }
}

proof fn lemma_run_unfold(m: Replay, a: Action, d: Disk, n: nat)
    requires
        n > 0,
        !(a is Finish),
        next(m, disk_answer(m, a, d).0).1 is Ok,
    ensures
        ({
            let (ev, d2) = disk_answer(m, a, d);
            let (m2, r) = next(m, ev);
            let run = disk_run(m2, r->Ok_0, d2, (n - 1) as nat);
            disk_run(m, a, d, n) == (
                if is_effect(a) {
                    seq![a] + run.0
                } else {
                    run.0
                },
                run.1,
                run.2,
            )
        }),
{
    reveal(disk_run);
}

proof fn lemma_run_finish(m: Replay, a: Action, d: Disk, n: nat)
    requires
        a is Finish,
    ensures
        disk_run(m, a, d, n) == (Seq::<Action>::empty(), Some(a), d),
{
    reveal(disk_run);
    assert(!is_effect(a));
}

proof fn lemma_run_end(m: Replay, d: Disk, n: nat)
    requires
        m.pos == m.entries@.len(),
        n >= 2,
    ensures
        advance(m).1 is Ok,
        disk_run(advance(m).0, advance(m).1->Ok_0, d, n) == (
            Seq::<Action>::empty(),
            Some(
                Action::Finish {
                    verified: opt_view(at(d, m.current_path@)) == opt_view(m.expected),
                    baseline_drift: m.drift,
                },
            ),
            d,
        ),
{
    reveal(advance);
    let (m1, r1) = advance(m);
    let a1 = r1->Ok_0;
    assert(a1 == Action::Fingerprint { path: m.current_path });
    assert(disk_answer(m1, a1, d) == (Event::Fingerprint(at(d, m.current_path@)), d));
    let (m2, r2) = next(m1, Event::Fingerprint(at(d, m.current_path@)));
    lemma_run_unfold(m1, a1, d, n);
    lemma_run_finish(m2, r2->Ok_0, d, (n - 1) as nat);
}

/// The machine, disk and remaining steps once the record at `m.pos` is
/// carried out and closed.
#[verifier::opaque]
pub open spec fn record_step(m: Replay, d: Disk, n: nat) -> (Replay, Disk, nat) {
    let e = m.entries@[m.pos as int];
    let a = effect_of(e).1->Ok_0;
    let m2 = in_phase(m, effect_of(e).0);
    (
        closed(m2, present_after(m2, a)),
        disk_answer(m2, a, d).1,
        if m.present && e.operation != Operation::Create {
            (n - 2) as nat
        } else {
            (n - 1) as nat
        },
    )
}

proof fn lemma_run_record(m: Replay, d: Disk, n: nat)
    requires
        m.pos < m.entries@.len() <= usize::MAX,
        replayable_last(m.entries@[m.pos as int], m.current_path@, opt_view(m.expected)),
        opt_view(at(d, m.current_path@)) == opt_view(m.expected),
        m.pos + 1 < m.entries@.len() ==> (effect_of(m.entries@[m.pos + 1]).1 is Ok),
        n >= 3,
    ensures
        advance(m).1 is Ok,
        ({
            let e = m.entries@[m.pos as int];
            let a = effect_of(e).1->Ok_0;
            let m2 = in_phase(m, effect_of(e).0);
            let (ev, d2) = disk_answer(m2, a, d);
            let m4 = closed(m2, present_after(m2, a));
            let k: nat = if m.present && e.operation != Operation::Create {
                (n - 2) as nat
            } else {
                (n - 1) as nat
            };
            &&& advance(m4).1 is Ok
            &&& disk_run(advance(m).0, advance(m).1->Ok_0, d, n) == (
                seq![a] + disk_run(advance(m4).0, advance(m4).1->Ok_0, d2, k).0,
                disk_run(advance(m4).0, advance(m4).1->Ok_0, d2, k).1,
                disk_run(advance(m4).0, advance(m4).1->Ok_0, d2, k).2,
            )
        }),
        ({
            let e = m.entries@[m.pos as int];
            let (m4, d2, k) = record_step(m, d, n);
            &&& m4.pos == m.pos + 1
            &&& m4.entries == m.entries
            &&& m4.current_path == e.file_path
            &&& m4.expected == e.hash_after
            &&& m4.drift == m.drift
            &&& k >= n - 2
            &&& advance(m4).1 is Ok
            &&& opt_view(at(d2, e.file_path@)) == if e.status == Status::Rejected {
                opt_view(m.expected)
            } else {
                opt_view(e.hash_after)
            }
            &&& e.status == Status::Rejected ==> d2 == d
            &&& disk_run(advance(m).0, advance(m).1->Ok_0, d, n) == (
                seq![effect_of(e).1->Ok_0] + disk_run(advance(m4).0, advance(m4).1->Ok_0, d2, k).0,
                disk_run(advance(m4).0, advance(m4).1->Ok_0, d2, k).1,
                disk_run(advance(m4).0, advance(m4).1->Ok_0, d2, k).2,
            )
        }),
{
    reveal(advance);
    reveal(record_step);
    let e = m.entries@[m.pos as int];
    let a = effect_of(e).1->Ok_0;
    let m2 = in_phase(m, effect_of(e).0);
    let (m1, r1) = advance(m);
    lemma_effect_answered(m2, d);
    let m4 = closed(m2, present_after(m2, a));
    let (ev, d2) = disk_answer(m2, a, d);
    assert(advance(m4).1 is Ok);
    if m.present && e.operation != Operation::Create {
        let a1 = r1->Ok_0;
        assert(disk_answer(m1, a1, d) == (Event::Fingerprint(at(d, m.current_path@)), d));
        assert(next(m1, Event::Fingerprint(at(d, m.current_path@))) == (m2, Ok::<
            Action,
            ReplayError,
        >(a)));
        lemma_run_unfold(m1, a1, d, n);
        lemma_run_unfold(m2, a, d, (n - 1) as nat);
    } else {
        assert(m1 == m2 && r1 == Ok::<Action, ReplayError>(a));
        lemma_run_unfold(m2, a, d, n);
    }
}

#[verifier::rlimit(100)]
proof fn lemma_disk_from(m: Replay, d: Disk, n: nat)
    requires
        m.pos <= m.entries@.len() <= usize::MAX,
        replayable_from(m.entries@, m.pos as int, m.current_path@, opt_view(m.expected)),
        opt_view(at(d, m.current_path@)) == opt_view(m.expected),
        !m.drift,
        n >= 2 * (m.entries@.len() - m.pos) + 2,
    ensures
        advance(m).1 is Ok,
        ({
            let (effs, end, dn) = disk_run(advance(m).0, advance(m).1->Ok_0, d, n);
            let l = m.entries@;
            let fin = final_hash(l, m.pos as int, opt_view(m.expected));
            &&& effs == requested_effects(l.skip(m.pos as int))
            &&& m.pos < l.len() ==> end == Some(
                Action::Finish {
                    verified: fin == opt_view(l.last().hash_after),
                    baseline_drift: false,
                },
            )
            &&& m.pos < l.len() ==> opt_view(at(dn, l.last().file_path@)) == fin
            &&& m.pos == l.len() ==> dn == d && end == Some(
                Action::Finish { verified: true, baseline_drift: false },
            )
        }),
    decreases m.entries@.len() - m.pos,
{
    let l = m.entries@;
    if m.pos == l.len() {
        lemma_run_end(m, d, n);
        assert(l.skip(m.pos as int) =~= Seq::<LogEntry>::empty());
        assert(requested_effects(l.skip(m.pos as int)) =~= Seq::<Action>::empty());
    } else {
        let e = l[m.pos as int];
        lemma_replayable_shift(l, m.pos as int, m.current_path@, opt_view(m.expected));
        if m.pos + 1 < l.len() {
            lemma_replayable_shift(l, m.pos + 1, e.file_path@, opt_view(e.hash_after));
        }
        lemma_run_record(m, d, n);
        let a = effect_of(e).1->Ok_0;
        let (m4, d2, k) = record_step(m, d, n);
        assert(l.skip(m.pos as int) =~= seq![e] + l.skip(m.pos + 1));
        assert(requested_effects(l.skip(m.pos as int)) =~= seq![a] + requested_effects(
            l.skip(m.pos + 1),
        ));
        if e.status == Status::Rejected {
            lemma_run_end(m4, d2, k);
            assert(l.skip(m.pos + 1) =~= Seq::<LogEntry>::empty());
            assert(requested_effects(l.skip(m.pos + 1)) =~= Seq::<Action>::empty());
            assert(l.last() == e);
        } else {
            lemma_disk_from(m4, d2, k);
            if m.pos + 1 == l.len() {
                assert(m4.current_path == l.last().file_path);
            }
        }
    }
}

#[verifier::rlimit(100)]
proof fn lemma_from_baseline(m: Replay, d: Disk, n: nat)
    requires
        m.pos == 0,
        0 < m.entries@.len() <= usize::MAX,
        !m.drift,
        replayable_from(m.entries@, 0, m.current_path@, opt_view(baseline_hash(m.baseline))),
        n >= 2 * m.entries@.len() + 6,
    ensures
        begin_baseline(m).1 is Ok,
        ({
            let l = m.entries@;
            let fin = final_hash(l, 0, opt_view(baseline_hash(m.baseline)));
            let (effs, end, dn) = disk_run(begin_baseline(m).0, begin_baseline(m).1->Ok_0, d, n);
            &&& effs == requested_effects(l)
            &&& end == Some(
                Action::Finish { verified: fin == opt_view(l.last().hash_after), baseline_drift: false },
            )
            &&& opt_view(at(dn, l.last().file_path@)) == fin
        }),
{
    let l = m.entries@;
    let (m3, r3) = begin_baseline(m);
    assert(l.skip(0) =~= l);
    match m.baseline {
        Baseline::Checkpoint { hash, .. } => {
            let d1 = d.insert(m.current_path@, hash);
            let (m4, r4) = next(m3, Event::Restored(true));
            assert(at(d1, m.current_path@) == hash);
            let m5 = Replay { present: true, expected: hash, drift: drifted(m4.baseline, hash), ..m4 };
            assert(next(m4, Event::Fingerprint(hash)) == advance(m5));
            lemma_disk_from(m5, d1, (n - 2) as nat);
            lemma_run_unfold(m3, r3->Ok_0, d, n);
            lemma_run_unfold(m4, r4->Ok_0, d1, (n - 1) as nat);
        },
        Baseline::Clean => {
            let d1 = d.insert(history_end(m)@, None).insert(m.current_path@, None);
            let m4 = Replay { present: false, expected: None, ..m3 };
            assert(next(m3, Event::Done) == advance(m4));
            lemma_disk_from(m4, d1, (n - 1) as nat);
            lemma_run_unfold(m3, r3->Ok_0, d, n);
        },
    }
}

/// A reconstruction against a file system on which every step succeeds,
/// started where the history's last path holds a fingerprint the history
/// accounts for (`settled`), asks for the effect of each record of the history
/// once, in order: each diff applied forward in its original order from the
/// baseline, and a rejected last edit skipped. It finishes, leaving at the
/// history's last path the last record's `hash_after` (then verified), or,
/// when that record is rejected, the fingerprint before it. The disk tracks
/// each path separately, so every fingerprint asked for is that of the path
/// named.
#[verifier::rlimit(100)]
pub proof fn lemma_reconstruction_rebuilds(
    m: Replay,
    path: String,
    l: Seq<LogEntry>,
    b: Baseline,
    d: Disk,
)
    requires
        is_fresh(m, path, l, b),
        0 < l.len() <= usize::MAX,
        replayable_from(l, 0, start_path(l)@, opt_view(baseline_hash(b))),
        settled(l, b, opt_view(at(d, l.last().file_path@))),
    ensures
        next(m, Event::Start).1 is Ok,
        ({
            let fin = final_hash(l, 0, opt_view(baseline_hash(b)));
            let (effs, end, dn) = disk_run(
                next(m, Event::Start).0,
                next(m, Event::Start).1->Ok_0,
                d,
                2 * l.len() + 8,
            );
            &&& effs == requested_effects(l)
            &&& end == Some(
                Action::Finish { verified: fin == opt_view(l.last().hash_after), baseline_drift: false },
            )
            &&& opt_view(at(dn, l.last().file_path@)) == fin
        }),
{
    let n = 2 * l.len() + 8;
    let (m1, r1) = next(m, Event::Start);
    let (m2, r2) = next(m1, Event::Lock(true));
    assert(history_end(m1) == l.last().file_path);
    let (m3, r3) = next(m2, Event::Fingerprint(at(d, l.last().file_path@)));
    assert(r3 == begin_baseline(m2).1 && m3 == begin_baseline(m2).0);
    lemma_run_unfold(m1, r1->Ok_0, d, n);
    lemma_run_unfold(m2, r2->Ok_0, d, (n - 1) as nat);
    lemma_from_baseline(m2, d, (n - 2) as nat);
}

/// What a finished replay leaves where the history ends is a fingerprint the
/// history accounts for.
proof fn lemma_final_settled(l: Seq<LogEntry>, b: Baseline)
    requires
        0 < l.len(),
        replayable_from(l, 0, start_path(l)@, opt_view(baseline_hash(b))),
    ensures
        settled(l, b, final_hash(l, 0, opt_view(baseline_hash(b)))),
{
    let n = l.len();
    if l.last().status == Status::Rejected {
        assert(l.drop_last().len() == n - 1);
        assert(last_surviving_hash(l, b) == last_surviving_hash(l.drop_last(), b));
        if n >= 2 {
            let i = n - 2;
            assert(i + 1 < l.len());
            assert(replayable_after(
                l[i],
                prev_path_at(l, 0, start_path(l)@, i),
                prev_hash_at(l, 0, opt_view(baseline_hash(b)), i),
            ));
            assert(l.drop_last().last() == l[n - 2]);
            assert(last_surviving_hash(l.drop_last(), b) == opt_view(l[n - 2].hash_after));
        } else {
            assert(l.drop_last().len() == 0);
        }
    }
}

/// Rebuilding a file twice from an unchanged log gives the same result, also
/// when its last edit is rejected: the second reconstruction, started on the
/// disk the first one left, passes its checks, asks for the same effects,
/// finishes the same way, and leaves the same fingerprint where the history
/// ends.
pub proof fn lemma_reconstruction_idempotent(
    m: Replay,
    path: String,
    l: Seq<LogEntry>,
    b: Baseline,
    d: Disk,
)
    requires
        is_fresh(m, path, l, b),
        0 < l.len() <= usize::MAX,
        replayable_from(l, 0, start_path(l)@, opt_view(baseline_hash(b))),
        settled(l, b, opt_view(at(d, l.last().file_path@))),
    ensures
        ({
            let (m1, r1) = next(m, Event::Start);
            let first = disk_run(m1, r1->Ok_0, d, 2 * l.len() + 8);
            let second = disk_run(m1, r1->Ok_0, first.2, 2 * l.len() + 8);
            &&& first.1 is Some
            &&& first.1->0 is Finish
            &&& second.0 == first.0
            &&& second.1 == first.1
            &&& opt_view(at(second.2, l.last().file_path@)) == opt_view(
                at(first.2, l.last().file_path@),
            )
        }),
{
    lemma_reconstruction_rebuilds(m, path, l, b, d);
    lemma_final_settled(l, b);
    let (m1, r1) = next(m, Event::Start);
    let first = disk_run(m1, r1->Ok_0, d, 2 * l.len() + 8);
    lemma_reconstruction_rebuilds(m, path, l, b, first.2);
}

impl Replay {
    fn advance(&mut self) -> (r: Result<Action, ReplayError>)
        ensures
            (*final(self), r) == advance(*old(self)),
    {
        proof {
            reveal(advance);
        }
        if self.pos >= self.entries.len() {
            self.phase = Phase::AwaitFinal;
            Ok(Action::Fingerprint { path: self.current_path.clone() })
        } else if self.present && self.entries[self.pos].operation != Operation::Create {
            self.phase = Phase::AwaitCheck;
            Ok(Action::Fingerprint { path: self.current_path.clone() })
        } else {
            let (p, r) = effect(&self.entries[self.pos]);
            self.phase = p;
            r
        }
    }

    fn complete(&mut self, present: bool) -> (r: Result<Action, ReplayError>)
        requires
            old(self).pos < old(self).entries@.len(),
        ensures
            (*final(self), r) == complete(*old(self), present),
    {
        let n = self.entries.len();
        assert(self.pos < n);
        let next_pos = self.pos + 1;
        let after = clone_opt(&self.entries[self.pos].hash_after);
        self.current_path = self.entries[self.pos].file_path.clone();
        self.expected = after;
        self.present = present;
        self.pos = next_pos;
        self.advance()
    }

    fn history_end(&self) -> (r: String)
        ensures
            r == history_end(*self),
    {
        let n = self.entries.len();
        if n > 0 {
            self.entries[n - 1].file_path.clone()
        } else {
            self.target.clone()
        }
    }

    fn last_surviving_hash(&self) -> (r: Option<String>)
        ensures
            opt_view(r) == last_surviving_hash(self.entries@, self.baseline),
    {
        let mut k: usize = self.entries.len();
        assert(self.entries@.take(k as int) =~= self.entries@);
        while k > 0
            invariant
                k <= self.entries@.len(),
                last_surviving_hash(self.entries@, self.baseline) == last_surviving_hash(
                    self.entries@.take(k as int),
                    self.baseline,
                ),
            decreases k,
        {
            assert(self.entries@.take(k as int).drop_last() =~= self.entries@.take(k - 1));
            assert(self.entries@.take(k as int).last() == self.entries@[k - 1]);
            if self.entries[k - 1].status != Status::Rejected {
                assert(last_surviving_hash(self.entries@.take(k as int), self.baseline) == opt_view(
                    self.entries@[k - 1].hash_after,
                ));
                let r = clone_opt(&self.entries[k - 1].hash_after);
                return r;
            }
            k = k - 1;
        }
        match &self.baseline {
            Baseline::Checkpoint { hash, .. } => clone_opt(hash),
            Baseline::Clean => None,
        }
    }

    fn clear(&mut self) -> (r: Result<Action, ReplayError>)
        ensures
            (*final(self), r) == clear(*old(self)),
    {
        self.phase = Phase::AwaitClear;
        let end = self.history_end();
        Ok(Action::ClearTarget { path: end, origin: self.current_path.clone() })
    }

    fn begin_baseline(&mut self) -> (r: Result<Action, ReplayError>)
        ensures
            (*final(self), r) == begin_baseline(*old(self)),
    {
        match &self.baseline {
            Baseline::Checkpoint { checkpoint_file, .. } => {
                let c = checkpoint_file.clone();
                self.phase = Phase::AwaitRestore;
                Ok(Action::RestoreCheckpoint { checkpoint_file: c, target: self.current_path.clone() })
            },
            Baseline::Clean => self.clear(),
        }
    }

    fn fail(&mut self, e: ReplayError) -> (r: Result<Action, ReplayError>)
        ensures
            (*final(self), r) == fail(*old(self), e),
    {
        self.phase = Phase::Failed;
        Err(e)
    }

    /// Takes the answer to the previous action and returns the next action.
    pub fn step(&mut self, ev: Event) -> (r: Result<Action, ReplayError>)
        ensures
            (*final(self), r) == next(*old(self), ev),
    {
        let has_entry = self.pos < self.entries.len();
        match (self.phase, ev) {
            (Phase::Start, Event::Start) => {
                self.phase = Phase::AwaitLock;
                Ok(Action::AcquireLock { path: self.target.clone() })
            },
            (Phase::AwaitLock, Event::Lock(taken)) => {
                if !taken {
                    return self.fail(ReplayError::LockBusy);
                }
                self.phase = Phase::AwaitPrior;
                Ok(Action::Fingerprint { path: self.history_end() })
            },
            (Phase::AwaitPrior, Event::Fingerprint(h)) => {
                let n = self.entries.len();
                if n == 0 {
                    return self.fail(ReplayError::UnexpectedEvent);
                }
                let surviving = self.last_surviving_hash();
                if !opt_eq(&h, &self.entries[n - 1].hash_after) && !opt_eq(&h, &surviving) {
                    let id = self.entries[n - 1].edit_id.clone();
                    return self.fail(ReplayError::ExternalModification { edit_id: id });
                }
                self.begin_baseline()
            },
            (Phase::AwaitRestore, Event::Restored(copied)) => {
                if copied {
                    self.phase = Phase::AwaitBaselineFingerprint;
                    Ok(Action::Fingerprint { path: self.current_path.clone() })
                } else if begins_with_create(&self.entries) {
                    self.clear()
                } else {
                    self.fail(ReplayError::NoBaseline)
                }
            },
            (Phase::AwaitBaselineFingerprint, Event::Fingerprint(h)) => {
                let drift = match &self.baseline {
                    Baseline::Checkpoint { hash: Some(x), .. } => {
                        let recorded = Some(x.clone());
                        !opt_eq(&h, &recorded)
                    },
                    _ => false,
                };
                self.present = true;
                self.expected = h;
                self.drift = drift;
                self.advance()
            },
            (Phase::AwaitClear, Event::Done) => {
                self.present = false;
                self.expected = None;
                self.advance()
            },
            (Phase::AwaitCheck, Event::Fingerprint(h)) => {
                if !has_entry {
                    return self.fail(ReplayError::UnexpectedEvent);
                }
                if opt_eq(&h, &self.expected) {
                    let (p, r) = effect(&self.entries[self.pos]);
                    self.phase = p;
                    r
                } else {
                    let id = self.entries[self.pos].edit_id.clone();
                    self.fail(ReplayError::ExternalModification { edit_id: id })
                }
            },
            (Phase::AwaitPatch, Event::Patched(ok)) => {
                if !has_entry {
                    return self.fail(ReplayError::UnexpectedEvent);
                }
                if ok {
                    self.complete(true)
                } else {
                    let id = self.entries[self.pos].edit_id.clone();
                    self.fail(ReplayError::PatchFailed { edit_id: id })
                }
            },
            (Phase::AwaitRemove, Event::Done) => {
                if !has_entry {
                    return self.fail(ReplayError::UnexpectedEvent);
                }
                self.complete(false)
            },
            (Phase::AwaitMove, Event::Moved(existed)) => {
                if !has_entry {
                    return self.fail(ReplayError::UnexpectedEvent);
                }
                let present = self.present || existed;
                self.complete(present)
            },
            (Phase::AwaitSkip, Event::Done) => {
                if !has_entry {
                    return self.fail(ReplayError::UnexpectedEvent);
                }
                let present = self.present;
                self.complete(present)
            },
            (Phase::AwaitFinal, Event::Fingerprint(h)) => {
                let verified = opt_eq(&h, &self.expected);
                self.phase = Phase::Finished;
                Ok(Action::Finish { verified, baseline_drift: self.drift })
            },
            _ => self.fail(ReplayError::UnexpectedEvent),
        }
    }
}

} // verus!
