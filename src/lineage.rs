//! Which records make up the history of one file, and where its replay starts.
use vstd::prelude::*;
use crate::entry::{opt_view, clone_opt, LogEntry, Operation, Status};
use crate::order::{chronological, chronological_positions, chronological_order};
use crate::replay::ReplayError;

verus! {

/// The records of `es`, taken in order, that make up the history of the file
/// now known as `path`. Walking back from the newest record with a tracked
/// path, a record belongs when it acts on the tracked path (and a move onto it
/// makes its source the tracked path for older records), or when it is a move
/// out of the tracked path.
pub open spec fn lineage_of(es: Seq<LogEntry>, path: Seq<char>) -> Seq<LogEntry>
    decreases es.len(),
{
    if es.len() == 0 {
        seq![]
    } else {
        let e = es.last();
        if e.file_path@ == path {
            let older = if e.operation == Operation::Move && e.source_path is Some {
                e.source_path->0@
            } else {
                path
            };
            lineage_of(es.drop_last(), older).push(e)
        } else if e.operation == Operation::Move && opt_view(e.source_path) == Some(path) {
            lineage_of(es.drop_last(), path).push(e)
        } else {
            lineage_of(es.drop_last(), path)
        }
    }
}

/// The history of the file at `file_path`, oldest record first.
pub fn lineage(entries: &Vec<LogEntry>, file_path: &String) -> (r: Vec<LogEntry>)
    ensures
        r@ == lineage_of(chronological(entries@), file_path@),
{
    let ord = chronological_order(entries);
    let ghost cs = chronological(entries@);
    proof {
        assert(cs.take(ord@.len() as int) =~= cs);
    }
    let mut tracked_path = file_path.clone();
    let mut acc: Vec<LogEntry> = Vec::new();
    let mut k: usize = ord.len();
    while k > 0
        invariant
            k <= ord@.len(),
            ord@ == chronological_positions(entries@, entries@.len()),
            cs == chronological(entries@),
            cs.len() == ord@.len(),
            forall|i: int| 0 <= i < ord@.len() ==> ord@[i] < entries@.len(),
            lineage_of(cs, file_path@) == lineage_of(cs.take(k as int), tracked_path@) + acc@,
        decreases k,
    {
        let e = &entries[ord[k - 1]];
        let ghost t = tracked_path@;
        let ghost a0 = acc@;
        proof {
            assert(*e == cs[k - 1]);
            assert(cs.take(k as int).drop_last() =~= cs.take(k - 1));
            assert(cs.take(k as int).last() == cs[k - 1]);
        }
        if e.file_path == tracked_path {
            if e.operation == Operation::Move {
                match &e.source_path {
                    Some(src) => {
                        tracked_path = src.clone();
                    },
                    None => {},
                }
            }
            acc.insert(0, e.duplicate());
        } else if e.operation == Operation::Move {
            match &e.source_path {
                Some(src) => {
                    if *src == tracked_path {
                        acc.insert(0, e.duplicate());
                    }
                },
                None => {},
            }
        }
        proof {
            let x = cs.take(k as int);
            let rest = lineage_of(cs.take(k - 1), tracked_path@);
            if acc@.len() > a0.len() {
                assert(rest.push(*e) + a0 =~= rest + acc@);
            } else {
                assert(a0 =~= acc@);
            }
            assert(lineage_of(x, t) + a0 =~= rest + acc@);
        }
        k = k - 1;
    }
    proof {
        assert(cs.take(0) =~= Seq::<LogEntry>::empty());
        assert(acc@ =~= lineage_of(cs, file_path@));
    }
    acc
}

/// The state the replay of a history starts from.
#[derive(Clone, Debug, PartialEq, Eq)]
pub enum Baseline {
    /// Restore this snapshot, whose fingerprint should be `hash`.
    Checkpoint { checkpoint_file: String, hash: Option<String> },
    /// Start with no file at all.
    Clean,
}

/// The snapshot of the oldest record in `l` that carries one, with that
/// record's fingerprint before its edit.
pub open spec fn checkpoint_baseline(l: Seq<LogEntry>) -> Option<Baseline>
    decreases l.len(),
{
    if l.len() == 0 {
        None
    } else if l[0].checkpoint_file is Some {
        Some(
            Baseline::Checkpoint { checkpoint_file: l[0].checkpoint_file->0, hash: l[0].hash_before },
        )
    } else {
        checkpoint_baseline(l.drop_first())
    }
}

/// The oldest record of `l` that is not rejected.
pub open spec fn first_surviving(l: Seq<LogEntry>) -> Option<LogEntry>
    decreases l.len(),
{
    if l.len() == 0 {
        None
    } else if l[0].status != Status::Rejected {
        Some(l[0])
    } else {
        first_surviving(l.drop_first())
    }
}

/// The history begins by creating the file: its oldest surviving record is a
/// create, or, with every record rejected, its oldest record is.
pub open spec fn starts_with_create(l: Seq<LogEntry>) -> bool {
    match first_surviving(l) {
        Some(e) => e.operation == Operation::Create,
        None => l.len() > 0 && l[0].operation == Operation::Create,
    }
}

/// Where the replay of history `l` starts: the first snapshot in it; else an
/// empty slate when the history begins by creating the file; else nowhere.
pub open spec fn baseline_of(l: Seq<LogEntry>) -> Result<Baseline, ReplayError> {
    match checkpoint_baseline(l) {
        Some(b) => Ok(b),
        None => if starts_with_create(l) {
            Ok(Baseline::Clean)
        } else {
            Err(ReplayError::NoBaseline)
        },
    }
}

/// A move from `a` to `b` brings the history of `a` into the history of `b`:
/// the history of `b` after the move is the history of `a` before it, then the move.
pub proof fn lemma_move_chases_source(es: Seq<LogEntry>, mv: LogEntry)
    requires
        mv.operation == Operation::Move,
        mv.source_path is Some,
    ensures
        lineage_of(es.push(mv), mv.file_path@) == lineage_of(es, mv.source_path->0@).push(mv),
{
    assert(es.push(mv).drop_last() =~= es);
}

proof fn lemma_no_checkpoint(l: Seq<LogEntry>)
    requires
        forall|i: int| 0 <= i < l.len() ==> (#[trigger] l[i]).checkpoint_file is None,
    ensures
        checkpoint_baseline(l) is None,
    decreases l.len(),
{
    if l.len() > 0 {
        lemma_no_checkpoint(l.drop_first());
    }
}

/// In a history without snapshots whose creating first record is rejected,
/// and whose next record survives and is no create, there is nothing to
/// replay from: the baseline is missing.
pub proof fn lemma_rejected_create_leaves_no_baseline(l: Seq<LogEntry>)
    requires
        l.len() >= 2,
        forall|i: int| 0 <= i < l.len() ==> (#[trigger] l[i]).checkpoint_file is None,
        l[0].operation == Operation::Create,
        l[0].status == Status::Rejected,
        l[1].status != Status::Rejected,
        l[1].operation != Operation::Create,
    ensures
        baseline_of(l) == Err::<Baseline, ReplayError>(ReplayError::NoBaseline),
{
    lemma_no_checkpoint(l);
    assert(l.drop_first()[0] == l[1]);
    assert(first_surviving(l.drop_first()) == Some(l[1]));
    assert(first_surviving(l) == Some(l[1]));
}

/// Whether history `l` begins by creating the file.
pub fn begins_with_create(l: &Vec<LogEntry>) -> (r: bool)
    ensures
        r == starts_with_create(l@),
{
    let mut j: usize = 0;
    assert(l@.skip(0) =~= l@);
    while j < l.len()
        invariant
            j <= l@.len(),
            first_surviving(l@) == first_surviving(l@.skip(j as int)),
        decreases l@.len() - j,
    {
        assert(l@.skip(j as int).drop_first() =~= l@.skip(j + 1));
        if l[j].status != Status::Rejected {
            return l[j].operation == Operation::Create;
        }
        j = j + 1;
    }
    assert(l@.skip(j as int) =~= Seq::<LogEntry>::empty());
    l.len() > 0 && l[0].operation == Operation::Create
}

/// Chooses the baseline of a history given oldest record first.
pub fn select_baseline(l: &Vec<LogEntry>) -> (r: Result<Baseline, ReplayError>)
    ensures
        r == baseline_of(l@),
{
    let mut i: usize = 0;
    assert(l@.skip(0) =~= l@);
    while i < l.len()
        invariant
            i <= l@.len(),
            checkpoint_baseline(l@) == checkpoint_baseline(l@.skip(i as int)),
        decreases l@.len() - i,
    {
        assert(l@.skip(i as int).drop_first() =~= l@.skip(i + 1));
        match &l[i].checkpoint_file {
            Some(c) => {
                return Ok(
                    Baseline::Checkpoint {
                        checkpoint_file: c.clone(),
                        hash: clone_opt(&l[i].hash_before),
                    },
                );
            },
            None => {},
        }
        i = i + 1;
    }
    assert(l@.skip(i as int) =~= Seq::<LogEntry>::empty());
    let mut j: usize = 0;
    while j < l.len()
        invariant
            j <= l@.len(),
            first_surviving(l@) == first_surviving(l@.skip(j as int)),
            checkpoint_baseline(l@) is None,
        decreases l@.len() - j,
    {
        assert(l@.skip(j as int).drop_first() =~= l@.skip(j + 1));
        if l[j].status != Status::Rejected {
            return if l[j].operation == Operation::Create {
                Ok(Baseline::Clean)
            } else {
                Err(ReplayError::NoBaseline)
            };
        }
        j = j + 1;
    }
    assert(l@.skip(j as int) =~= Seq::<LogEntry>::empty());
    if l.len() > 0 && l[0].operation == Operation::Create {
        Ok(Baseline::Clean)
    } else {
        Err(ReplayError::NoBaseline)
    }
}

} // verus!
