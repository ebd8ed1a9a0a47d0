use edit_history::entry::{LogEntry, Operation, Status};
use edit_history::lineage::{lineage, select_baseline, Baseline};
use edit_history::order::chronological_order;
use edit_history::replay::{plan_reconstruction, Action, Event, Phase, Replay, ReplayError};
use edit_history::status::modify_status;
use std::collections::HashMap;

fn entry(id: &str, ts: &str, idx: u64, op: Operation, path: &str) -> LogEntry {
    LogEntry {
        edit_id: id.to_string(),
        conversation_id: "conv".to_string(),
        tool_call_index: idx,
        timestamp: ts.to_string(),
        operation: op,
        file_path: path.to_string(),
        source_path: None,
        tool_name: "tool".to_string(),
        status: Status::Pending,
        diff_file: match op {
            Operation::Create | Operation::Replace | Operation::Edit => Some(format!("diffs/{}.diff", id)),
            _ => None,
        },
        checkpoint_file: None,
        hash_before: None,
        hash_after: None,
    }
}

fn hashes(mut e: LogEntry, before: Option<&str>, after: Option<&str>) -> LogEntry {
    e.hash_before = before.map(|s| s.to_string());
    e.hash_after = after.map(|s| s.to_string());
    e
}

fn fp(s: &str) -> Event {
    Event::Fingerprint(Some(s.to_string()))
}

fn plan(entries: &Vec<LogEntry>, path: &str) -> Replay {
    plan_reconstruction(entries, &path.to_string()).unwrap().unwrap()
}

/// Runs the machine against a model disk that maps each path to the
/// fingerprint of its file: applying a record's diff gives its target the
/// record's `hash_after`, a rename moves the fingerprint, and every fingerprint
/// asked for is that of the path named. Returns the actions, or the error.
fn run_on_disk(m: &mut Replay, disk: &mut HashMap<String, String>) -> Result<Vec<Action>, ReplayError> {
    let mut actions = Vec::new();
    let mut ev = Event::Start;
    loop {
        let a = m.step(ev)?;
        actions.push(a.clone());
        ev = match &a {
            Action::AcquireLock { .. } => Event::Lock(true),
            Action::Fingerprint { path } => Event::Fingerprint(disk.get(path).cloned()),
            Action::RestoreCheckpoint { target, .. } => {
                match &m.baseline {
                    Baseline::Checkpoint { hash: Some(h), .. } => disk.insert(target.clone(), h.clone()),
                    _ => disk.remove(target),
                };
                Event::Restored(true)
            }
            Action::ClearTarget { path, origin } => {
                disk.remove(path);
                disk.remove(origin);
                Event::Done
            }
            Action::ApplyDiff { target, .. } => {
                match &m.entries[m.pos].hash_after {
                    Some(h) => disk.insert(target.clone(), h.clone()),
                    None => disk.remove(target),
                };
                Event::Patched(true)
            }
            Action::RemoveFile { path } => {
                disk.remove(path);
                Event::Done
            }
            Action::MoveFile { from, to } => match disk.remove(from) {
                Some(h) => {
                    disk.insert(to.clone(), h);
                    Event::Moved(true)
                }
                None => Event::Moved(false),
            },
            Action::Finish { .. } => break,
            Action::Skip { .. } => Event::Done,
        };
    }
    Ok(actions)
}

fn disk_with(pairs: &[(&str, &str)]) -> HashMap<String, String> {
    pairs.iter().map(|(p, h)| (p.to_string(), h.to_string())).collect()
}

/// Takes the lock and passes the check of the target, answering with `prior`.
fn begin(m: &mut Replay, prior: Option<&str>) -> Result<Action, ReplayError> {
    assert_eq!(m.step(Event::Start), Ok(Action::AcquireLock { path: m.target.clone() }));
    let end = m.entries.last().unwrap().file_path.clone();
    assert_eq!(m.step(Event::Lock(true)), Ok(Action::Fingerprint { path: end }));
    m.step(Event::Fingerprint(prior.map(|s| s.to_string())))
}

fn effects(actions: &[Action]) -> Vec<Action> {
    actions
        .iter()
        .filter(|a| matches!(a, Action::ApplyDiff { .. } | Action::RemoveFile { .. } | Action::MoveFile { .. } | Action::Skip { .. }))
        .cloned()
        .collect()
}

fn move_entry(id: &str, ts: &str, idx: u64, from: &str, to: &str) -> LogEntry {
    let mut e = entry(id, ts, idx, Operation::Move, to);
    e.source_path = Some(from.to_string());
    e
}

fn move_history() -> Vec<LogEntry> {
    vec![
        hashes(entry("e1", "2024-01-01T00:00:01Z", 1, Operation::Create, "/w/a.txt"), None, Some("H1")),
        hashes(move_entry("e2", "2024-01-01T00:00:02Z", 2, "/w/a.txt", "/w/b.txt"), Some("H1"), Some("H1")),
        hashes(entry("e3", "2024-01-01T00:00:03Z", 3, Operation::Edit, "/w/b.txt"), Some("H1"), Some("H2")),
    ]
}

#[test]
fn move_chasing_includes_whole_history() {
    let entries = move_history();
    let l = lineage(&entries, &"/w/b.txt".to_string());
    let ids: Vec<&str> = l.iter().map(|e| e.edit_id.as_str()).collect();
    assert_eq!(ids, vec!["e1", "e2", "e3"]);
    let mut m = plan(&entries, "/w/b.txt");
    assert_eq!(m.baseline, Baseline::Clean);
    assert_eq!(m.current_path, "/w/a.txt");
    let mut disk = disk_with(&[("/w/b.txt", "H2")]);
    let actions = run_on_disk(&mut m, &mut disk).unwrap();
    assert_eq!(actions[2], Action::ClearTarget { path: "/w/b.txt".into(), origin: "/w/a.txt".into() });
    assert_eq!(
        effects(&actions),
        vec![
            Action::ApplyDiff { edit_id: "e1".into(), diff_file: "diffs/e1.diff".into(), target: "/w/a.txt".into() },
            Action::MoveFile { from: "/w/a.txt".into(), to: "/w/b.txt".into() },
            Action::ApplyDiff { edit_id: "e3".into(), diff_file: "diffs/e3.diff".into(), target: "/w/b.txt".into() },
        ]
    );
    assert_eq!(actions.last(), Some(&Action::Finish { verified: true, baseline_drift: false }));
    assert_eq!(disk.get("/w/b.txt"), Some(&"H2".to_string()));
    assert_eq!(disk.get("/w/a.txt"), None);
}

#[test]
fn move_history_checks_each_path_it_passes() {
    let entries = move_history();
    let mut m = plan(&entries, "/w/b.txt");
    assert_eq!(begin(&mut m, Some("H2")), Ok(Action::ClearTarget { path: "/w/b.txt".into(), origin: "/w/a.txt".into() }));
    assert!(matches!(m.step(Event::Done), Ok(Action::ApplyDiff { target, .. }) if target == "/w/a.txt"));
    assert_eq!(m.step(Event::Patched(true)), Ok(Action::Fingerprint { path: "/w/a.txt".into() }));
    assert_eq!(m.step(fp("H1")), Ok(Action::MoveFile { from: "/w/a.txt".into(), to: "/w/b.txt".into() }));
    assert_eq!(m.step(Event::Moved(true)), Ok(Action::Fingerprint { path: "/w/b.txt".into() }));
    assert!(matches!(m.step(fp("H1")), Ok(Action::ApplyDiff { target, .. }) if target == "/w/b.txt"));
    assert_eq!(m.step(Event::Patched(true)), Ok(Action::Fingerprint { path: "/w/b.txt".into() }));
    assert_eq!(m.step(fp("H2")), Ok(Action::Finish { verified: true, baseline_drift: false }));
}

#[test]
fn rejecting_the_create_leaves_no_baseline() {
    let mut entries = vec![
        hashes(entry("e1", "2024-01-01T00:00:01Z", 1, Operation::Create, "/w/file.txt"), None, Some("H1")),
        hashes(entry("e2", "2024-01-01T00:00:02Z", 2, Operation::Edit, "/w/file.txt"), Some("H1"), Some("H2")),
    ];
    let affected = modify_status(&mut entries, Status::Rejected, Some("e1"), None).unwrap();
    assert_eq!(affected, vec![("conv".to_string(), "/w/file.txt".to_string())]);
    assert_eq!(entries[0].status, Status::Rejected);
    assert_eq!(entries[1].status, Status::Pending);
    let r = plan_reconstruction(&entries, &"/w/file.txt".to_string());
    assert!(matches!(r, Err(ReplayError::NoBaseline)));
}

#[test]
fn external_modification_after_reconstruction_is_reported() {
    let entries = vec![
        hashes(entry("e1", "2024-01-01T00:00:01Z", 1, Operation::Create, "/w/f.txt"), None, Some("H1")),
        hashes(entry("e2", "2024-01-01T00:00:02Z", 2, Operation::Edit, "/w/f.txt"), Some("H1"), Some("H2")),
    ];
    let mut disk = disk_with(&[("/w/f.txt", "H2")]);
    let mut first = plan(&entries, "/w/f.txt");
    run_on_disk(&mut first, &mut disk).unwrap();
    assert_eq!(disk.get("/w/f.txt"), Some(&"H2".to_string()));
    disk.insert("/w/f.txt".to_string(), "unrelated".to_string());
    let mut again = plan(&entries, "/w/f.txt");
    let before = disk.clone();
    assert_eq!(
        run_on_disk(&mut again, &mut disk),
        Err(ReplayError::ExternalModification { edit_id: "e2".into() })
    );
    assert_eq!(disk, before);
    assert_eq!(again.phase, Phase::Failed);
    assert_eq!(again.step(Event::Done), Err(ReplayError::UnexpectedEvent));
}

#[test]
fn external_modification_during_replay_stops_before_next_effect() {
    let entries = vec![
        hashes(entry("e1", "2024-01-01T00:00:01Z", 1, Operation::Create, "/w/f.txt"), None, Some("H1")),
        hashes(entry("e2", "2024-01-01T00:00:02Z", 2, Operation::Edit, "/w/f.txt"), Some("H1"), Some("H2")),
    ];
    let mut m = plan(&entries, "/w/f.txt");
    assert_eq!(begin(&mut m, Some("H2")), Ok(Action::ClearTarget { path: "/w/f.txt".into(), origin: "/w/f.txt".into() }));
    assert!(matches!(m.step(Event::Done), Ok(Action::ApplyDiff { .. })));
    assert_eq!(m.step(Event::Patched(true)), Ok(Action::Fingerprint { path: "/w/f.txt".into() }));
    assert_eq!(
        m.step(fp("unrelated")),
        Err(ReplayError::ExternalModification { edit_id: "e2".into() })
    );
    assert_eq!(m.phase, Phase::Failed);
    assert_eq!(m.step(Event::Patched(true)), Err(ReplayError::UnexpectedEvent));
}

#[test]
fn busy_lock_fails_at_once() {
    let entries = vec![entry("e1", "t1", 1, Operation::Create, "/w/p.txt")];
    let mut m = plan(&entries, "/w/p.txt");
    assert_eq!(m.step(Event::Start), Ok(Action::AcquireLock { path: "/w/p.txt".into() }));
    assert_eq!(m.step(Event::Lock(false)), Err(ReplayError::LockBusy));
    assert_eq!(m.step(Event::Done), Err(ReplayError::UnexpectedEvent));
}

#[test]
fn hash_chain_is_checked_between_edits() {
    let entries = vec![
        hashes(entry("e1", "t1", 1, Operation::Create, "/w/f"), None, Some("H1")),
        hashes(entry("e2", "t2", 2, Operation::Edit, "/w/f"), Some("H1"), Some("H2")),
        hashes(entry("e3", "t3", 3, Operation::Edit, "/w/f"), Some("H2"), Some("H3")),
    ];
    let mut m = plan(&entries, "/w/f");
    begin(&mut m, Some("H3")).unwrap();
    m.step(Event::Done).unwrap();
    assert!(matches!(m.step(Event::Patched(true)), Ok(Action::Fingerprint { .. })));
    assert_eq!(m.expected, Some("H1".to_string()));
    assert!(matches!(m.step(fp("H1")), Ok(Action::ApplyDiff { edit_id, .. }) if edit_id == "e2"));
    assert!(matches!(m.step(Event::Patched(true)), Ok(Action::Fingerprint { .. })));
    assert_eq!(m.expected, Some("H2".to_string()));
    assert_eq!(m.step(fp("H1")), Err(ReplayError::ExternalModification { edit_id: "e3".into() }));
}

#[test]
fn surviving_history_replays_every_diff_in_order() {
    let mut first = hashes(entry("e1", "t1", 1, Operation::Edit, "/w/f"), Some("H0"), Some("H1"));
    first.checkpoint_file = Some("checkpoints/e1".to_string());
    let entries = vec![
        hashes(entry("e3", "t3", 3, Operation::Replace, "/w/f"), Some("H2"), Some("H3")),
        first,
        hashes(entry("e2", "t2", 2, Operation::Edit, "/w/f"), Some("H1"), Some("H2")),
    ];
    let mut m = plan(&entries, "/w/f");
    assert_eq!(
        m.baseline,
        Baseline::Checkpoint { checkpoint_file: "checkpoints/e1".into(), hash: Some("H0".into()) }
    );
    let mut disk = disk_with(&[("/w/f", "H3")]);
    let actions = run_on_disk(&mut m, &mut disk).unwrap();
    assert_eq!(actions[2], Action::RestoreCheckpoint { checkpoint_file: "checkpoints/e1".into(), target: "/w/f".into() });
    let ids: Vec<String> = effects(&actions)
        .into_iter()
        .map(|a| match a {
            Action::ApplyDiff { edit_id, .. } => edit_id,
            other => panic!("unexpected {:?}", other),
        })
        .collect();
    assert_eq!(ids, vec!["e1", "e2", "e3"]);
    assert_eq!(actions.last(), Some(&Action::Finish { verified: true, baseline_drift: false }));
    assert_eq!(disk.get("/w/f"), Some(&"H3".to_string()));
}

#[test]
fn reconstruction_twice_gives_the_same() {
    let entries = move_history();
    let mut disk = disk_with(&[("/w/b.txt", "H2")]);
    let mut m1 = plan(&entries, "/w/b.txt");
    let a1 = run_on_disk(&mut m1, &mut disk).unwrap();
    let after_first = disk.clone();
    let mut m2 = plan(&entries, "/w/b.txt");
    let a2 = run_on_disk(&mut m2, &mut disk).unwrap();
    assert_eq!(a1, a2);
    assert_eq!(disk, after_first);
    assert_eq!(m1.expected, m2.expected);
}

#[test]
fn rejected_entry_still_advances_expected_hash() {
    let mut entries = vec![
        hashes(entry("e1", "t1", 1, Operation::Create, "/w/f"), None, Some("H1")),
        hashes(entry("e2", "t2", 2, Operation::Edit, "/w/f"), Some("H1"), Some("H2")),
        hashes(entry("e3", "t3", 3, Operation::Edit, "/w/f"), Some("H2"), Some("H3")),
    ];
    entries[1].status = Status::Rejected;
    let mut m = plan(&entries, "/w/f");
    begin(&mut m, Some("H3")).unwrap();
    m.step(Event::Done).unwrap();
    m.step(Event::Patched(true)).unwrap();
    assert_eq!(m.step(fp("H1")), Ok(Action::Skip { edit_id: "e2".into(), unknown: false }));
    assert_eq!(m.step(Event::Done), Ok(Action::Fingerprint { path: "/w/f".into() }));
    assert_eq!(m.expected, Some("H2".to_string()));
    assert_eq!(m.step(fp("H1")), Err(ReplayError::ExternalModification { edit_id: "e3".into() }));
}

#[test]
fn rejected_delete_keeps_the_file() {
    let mut entries = vec![
        hashes(entry("e1", "t1", 1, Operation::Create, "/w/f"), None, Some("H1")),
        hashes(entry("e2", "t2", 2, Operation::Delete, "/w/f"), Some("H1"), None),
    ];
    entries[1].status = Status::Rejected;
    let mut m = plan(&entries, "/w/f");
    let mut disk = HashMap::new();
    let actions = run_on_disk(&mut m, &mut disk).unwrap();
    assert!(m.present);
    assert_eq!(effects(&actions)[1], Action::Skip { edit_id: "e2".into(), unknown: false });
    assert_eq!(disk.get("/w/f"), Some(&"H1".to_string()));
}

#[test]
fn accepted_delete_removes_the_file() {
    let entries = vec![
        hashes(entry("e1", "t1", 1, Operation::Create, "/w/f"), None, Some("H1")),
        hashes(entry("e2", "t2", 2, Operation::Delete, "/w/f"), Some("H1"), None),
    ];
    let mut m = plan(&entries, "/w/f");
    let mut disk = HashMap::new();
    let actions = run_on_disk(&mut m, &mut disk).unwrap();
    assert!(!m.present);
    assert_eq!(effects(&actions)[1], Action::RemoveFile { path: "/w/f".into() });
    assert_eq!(actions.last(), Some(&Action::Finish { verified: true, baseline_drift: false }));
    assert!(disk.is_empty());
}

#[test]
fn unknown_operation_is_skipped() {
    let entries = vec![
        entry("e1", "t1", 1, Operation::Create, "/w/f"),
        entry("e2", "t2", 2, Operation::Unknown, "/w/f"),
    ];
    let mut m = plan(&entries, "/w/f");
    let mut disk = HashMap::new();
    let actions = run_on_disk(&mut m, &mut disk).unwrap();
    assert_eq!(effects(&actions)[1], Action::Skip { edit_id: "e2".into(), unknown: true });
}

#[test]
fn edit_without_diff_fails() {
    let mut e = entry("e1", "t1", 1, Operation::Create, "/w/f");
    e.diff_file = None;
    let mut m = plan(&vec![e], "/w/f");
    begin(&mut m, None).unwrap();
    assert_eq!(m.step(Event::Done), Err(ReplayError::MissingDiff { edit_id: "e1".into() }));
}

#[test]
fn move_without_source_fails() {
    let entries = vec![
        entry("e1", "t1", 1, Operation::Create, "/w/f"),
        entry("e2", "t2", 2, Operation::Move, "/w/f"),
    ];
    let mut m = plan(&entries, "/w/f");
    begin(&mut m, None).unwrap();
    m.step(Event::Done).unwrap();
    m.step(Event::Patched(true)).unwrap();
    assert_eq!(m.step(Event::Fingerprint(None)), Err(ReplayError::MissingSource { edit_id: "e2".into() }));
}

#[test]
fn patch_failure_is_fatal() {
    let entries = vec![entry("e1", "t1", 1, Operation::Create, "/w/f")];
    let mut m = plan(&entries, "/w/f");
    begin(&mut m, None).unwrap();
    m.step(Event::Done).unwrap();
    assert_eq!(m.step(Event::Patched(false)), Err(ReplayError::PatchFailed { edit_id: "e1".into() }));
}

#[test]
fn checkpoint_drift_is_reported_not_fatal() {
    let mut e = hashes(entry("e1", "t1", 1, Operation::Edit, "/w/f"), Some("H0"), Some("H1"));
    e.checkpoint_file = Some("checkpoints/c".to_string());
    let mut m = plan(&vec![e], "/w/f");
    assert!(matches!(begin(&mut m, Some("H1")), Ok(Action::RestoreCheckpoint { .. })));
    assert_eq!(m.step(Event::Restored(true)), Ok(Action::Fingerprint { path: "/w/f".into() }));
    assert!(matches!(m.step(fp("OTHER")), Ok(Action::Fingerprint { .. })));
    assert!(matches!(m.step(fp("OTHER")), Ok(Action::ApplyDiff { .. })));
    assert!(matches!(m.step(Event::Patched(true)), Ok(Action::Fingerprint { .. })));
    assert_eq!(m.step(fp("WRONG")), Ok(Action::Finish { verified: false, baseline_drift: true }));
}

#[test]
fn missing_snapshot_falls_back_to_create() {
    let mut e1 = hashes(entry("e1", "t1", 1, Operation::Create, "/w/f"), None, Some("H1"));
    e1.checkpoint_file = Some("checkpoints/gone".to_string());
    let mut m = plan(&vec![e1.clone()], "/w/f");
    assert!(matches!(begin(&mut m, Some("H1")), Ok(Action::RestoreCheckpoint { .. })));
    assert_eq!(m.step(Event::Restored(false)), Ok(Action::ClearTarget { path: "/w/f".into(), origin: "/w/f".into() }));
    let mut e2 = hashes(entry("e2", "t1", 1, Operation::Edit, "/w/f"), Some("H0"), Some("H1"));
    e2.checkpoint_file = Some("checkpoints/gone".to_string());
    let mut m = plan(&vec![e2], "/w/f");
    begin(&mut m, Some("H1")).unwrap();
    assert_eq!(m.step(Event::Restored(false)), Err(ReplayError::NoBaseline));
}

#[test]
fn untouched_path_needs_nothing() {
    let entries = vec![entry("e1", "t1", 1, Operation::Create, "/w/other")];
    assert!(matches!(plan_reconstruction(&entries, &"/w/f".to_string()), Ok(None)));
    assert!(matches!(plan_reconstruction(&Vec::new(), &"/w/f".to_string()), Ok(None)));
}

#[test]
fn no_checkpoint_and_no_create_is_no_baseline() {
    let entries = vec![entry("e1", "t1", 1, Operation::Edit, "/w/f")];
    assert_eq!(select_baseline(&entries), Err(ReplayError::NoBaseline));
    let all_rejected_create = {
        let mut e = entry("e1", "t1", 1, Operation::Create, "/w/f");
        e.status = Status::Rejected;
        vec![e]
    };
    assert_eq!(select_baseline(&all_rejected_create), Ok(Baseline::Clean));
}

#[test]
fn order_is_timestamp_then_index_then_log_order() {
    let entries = vec![
        entry("a", "2024-01-02", 1, Operation::Edit, "/f"),
        entry("b", "2024-01-01", 5, Operation::Edit, "/f"),
        entry("c", "2024-01-01", 2, Operation::Edit, "/f"),
        entry("d", "2024-01-01", 2, Operation::Edit, "/f"),
        entry("e", "2024-01-01T", 0, Operation::Edit, "/f"),
    ];
    assert_eq!(chronological_order(&entries), vec![2, 3, 1, 4, 0]);
    assert_eq!(chronological_order(&Vec::new()), Vec::<usize>::new());
}

#[test]
fn move_out_of_path_belongs_to_its_history() {
    let entries = vec![
        entry("e1", "t1", 1, Operation::Create, "/w/a"),
        move_entry("e2", "t2", 2, "/w/a", "/w/b"),
        entry("e3", "t3", 3, Operation::Create, "/w/c"),
    ];
    let ids: Vec<String> = lineage(&entries, &"/w/a".to_string()).into_iter().map(|e| e.edit_id).collect();
    assert_eq!(ids, vec!["e1", "e2"]);
}

#[test]
fn rejecting_the_last_edit_twice_gives_the_same() {
    let mut entries = vec![
        hashes(entry("e1", "t1", 1, Operation::Create, "/w/f"), None, Some("H1")),
        hashes(entry("e2", "t2", 2, Operation::Edit, "/w/f"), Some("H1"), Some("H2")),
    ];
    modify_status(&mut entries, Status::Rejected, Some("e2"), None).unwrap();
    let mut disk = disk_with(&[("/w/f", "H2")]);
    let mut m1 = plan(&entries, "/w/f");
    let a1 = run_on_disk(&mut m1, &mut disk).unwrap();
    assert_eq!(a1.last(), Some(&Action::Finish { verified: false, baseline_drift: false }));
    assert_eq!(disk.get("/w/f"), Some(&"H1".to_string()));
    let after_first = disk.clone();
    let mut m2 = plan(&entries, "/w/f");
    let a2 = run_on_disk(&mut m2, &mut disk).unwrap();
    assert_eq!(a1, a2);
    assert_eq!(disk, after_first);
}

#[test]
fn unaccounted_fingerprint_after_rejection_is_reported() {
    let mut entries = vec![
        hashes(entry("e1", "t1", 1, Operation::Create, "/w/f"), None, Some("H1")),
        hashes(entry("e2", "t2", 2, Operation::Edit, "/w/f"), Some("H1"), Some("H2")),
    ];
    entries[1].status = Status::Rejected;
    let mut m = plan(&entries, "/w/f");
    assert_eq!(begin(&mut m, Some("other")), Err(ReplayError::ExternalModification { edit_id: "e2".into() }));
}

#[test]
fn history_moved_away_is_checked_where_it_ends() {
    let entries = vec![
        hashes(entry("e1", "t1", 1, Operation::Create, "/w/a"), None, Some("H1")),
        hashes(move_entry("e2", "t2", 2, "/w/a", "/w/c"), Some("H1"), Some("H1")),
    ];
    let mut m = plan(&entries, "/w/a");
    assert_eq!(m.target, "/w/a");
    let mut disk = disk_with(&[("/w/c", "H1")]);
    let actions = run_on_disk(&mut m, &mut disk).unwrap();
    assert_eq!(actions[1], Action::Fingerprint { path: "/w/c".into() });
    assert_eq!(actions[2], Action::ClearTarget { path: "/w/c".into(), origin: "/w/a".into() });
    assert_eq!(actions.last(), Some(&Action::Finish { verified: true, baseline_drift: false }));
    assert_eq!(disk.get("/w/c"), Some(&"H1".to_string()));
    assert_eq!(disk.get("/w/a"), None);
}
