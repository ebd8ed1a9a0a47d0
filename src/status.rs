//! Changing the review status of records, and choosing records to show.
use vstd::prelude::*;
use crate::entry::{opt_view, LogEntry, Status};

verus! {

/// The two ways of choosing records for a status change are mutually
/// exclusive, and one of them is required.
#[derive(Clone, Copy, Debug, PartialEq, Eq, Structural)]
pub enum SelectorError {
    /// Both an edit id and a conversation id were given.
    Conflicting,
    /// Neither was given.
    Missing,
}

/// A conversation-wide change to `target` takes a record in state `current`:
/// accepting takes pending records, rejecting pending and accepted ones.
/// Nothing is put back to pending conversation-wide.
pub open spec fn eligible(current: Status, target: Status) -> bool {
    match target {
        Status::Accepted => current == Status::Pending,
        Status::Rejected => current == Status::Pending || current == Status::Accepted,
        Status::Pending => false,
    }
}

/// The characters of an optional selector.
pub open spec fn sel_view(o: Option<&str>) -> Option<Seq<char>> {
    match o {
        Some(s) => Some(s@),
        None => None,
    }
}

/// Record `e` is changed: by edit id whatever its state, or by conversation
/// when its state is eligible.
pub open spec fn selected(
    e: LogEntry,
    target: Status,
    edit_id: Option<Seq<char>>,
    conv: Option<Seq<char>>,
) -> bool {
    match edit_id {
        Some(id) => e.edit_id@ == id,
        None => match conv {
            Some(c) => e.conversation_id@ == c && eligible(e.status, target),
            None => false,
        },
    }
}

/// The conversation and file of a record.
pub open spec fn pair_of(e: LogEntry) -> (Seq<char>, Seq<char>) {
    (e.conversation_id@, e.file_path@)
}

/// The characters of a list of (conversation, file) pairs.
pub open spec fn pairs_view(v: Seq<(String, String)>) -> Seq<(Seq<char>, Seq<char>)> {
    v.map_values(|p: (String, String)| (p.0@, p.1@))
}

/// `s` with each element kept at its first occurrence only.
pub open spec fn dedup(s: Seq<(Seq<char>, Seq<char>)>) -> Seq<(Seq<char>, Seq<char>)>
    decreases s.len(),
{
    if s.len() == 0 {
        s
    } else {
        let d = dedup(s.drop_last());
        if d.contains(s.last()) {
            d
        } else {
            d.push(s.last())
        }
    }
}

/// The pairs of the records of `log` that a change selects, in log order.
pub open spec fn selected_pairs(
    log: Seq<LogEntry>,
    target: Status,
    edit_id: Option<Seq<char>>,
    conv: Option<Seq<char>>,
) -> Seq<(Seq<char>, Seq<char>)>
    decreases log.len(),
{
    if log.len() == 0 {
        seq![]
    } else {
        let rest = selected_pairs(log.drop_last(), target, edit_id, conv);
        if selected(log.last(), target, edit_id, conv) {
            rest.push(pair_of(log.last()))
        } else {
            rest
        }
    }
}

/// Record `e` with its status set to `s`.
pub open spec fn with_status(e: LogEntry, s: Status) -> LogEntry {
    LogEntry { status: s, ..e }
}

fn pair_eq(a: &(String, String), b: &(String, String)) -> (r: bool)
    ensures
        r == ((a.0@, a.1@) == (b.0@, b.1@)),
{
    a.0 == b.0 && a.1 == b.1
}

/// The pairs of `pairs`, each once, in order of first occurrence.
pub fn dedup_pairs(pairs: &Vec<(String, String)>) -> (r: Vec<(String, String)>)
    ensures
        pairs_view(r@) == dedup(pairs_view(pairs@)),
{
    let mut r: Vec<(String, String)> = Vec::new();
    let mut i: usize = 0;
    while i < pairs.len()
        invariant
            i <= pairs@.len(),
            pairs_view(r@) == dedup(pairs_view(pairs@).take(i as int)),
        decreases pairs@.len() - i,
    {
        let p = &pairs[i];
        let mut found = false;
        let mut j: usize = 0;
        while j < r.len()
            invariant
                j <= r@.len(),
                found == pairs_view(r@).take(j as int).contains((p.0@, p.1@)),
            decreases r@.len() - j,
        {
            proof {
                assert(pairs_view(r@).take(j + 1) =~= pairs_view(r@).take(j as int).push(
                    pairs_view(r@)[j as int],
                ));
            }
            let same = pair_eq(&r[j], p);
            proof {
                let q = (p.0@, p.1@);
                let t = pairs_view(r@).take(j as int);
                let t1 = pairs_view(r@).take(j + 1);
                if t.contains(q) {
                    let k = choose|k: int| 0 <= k < t.len() && t[k] == q;
                    assert(t1[k] == q);
                }
                if same {
                    assert(t1[j as int] == q);
                }
                if t1.contains(q) && !same {
                    let k = choose|k: int| 0 <= k < t1.len() && t1[k] == q;
                    assert(t[k] == q);
                }
            }
            if same {
                found = true;
            }
            j = j + 1;
        }
        proof {
            assert(pairs_view(r@).take(j as int) =~= pairs_view(r@));
            assert(pairs_view(pairs@).take(i + 1).drop_last() =~= pairs_view(pairs@).take(
                i as int,
            ));
        }
        if !found {
            r.push((p.0.clone(), p.1.clone()));
            proof {
                assert(pairs_view(r@) =~= dedup(pairs_view(pairs@).take(i as int)).push(
                    (p.0@, p.1@),
                ));
            }
        }
        i = i + 1;
    }
    proof {
        assert(pairs_view(pairs@).take(i as int) =~= pairs_view(pairs@));
    }
    r
}

/// A status change made twice is made once: the second finds every record
/// it selects already in the target state.
pub proof fn lemma_status_change_idempotent(
    e: LogEntry,
    target: Status,
    edit_id: Option<Seq<char>>,
    conv: Option<Seq<char>>,
)
    ensures
        ({
            let once = if selected(e, target, edit_id, conv) {
                with_status(e, target)
            } else {
                e
            };
            (if selected(once, target, edit_id, conv) {
                with_status(once, target)
            } else {
                once
            }) == once
        }),
{
}

fn is_selected(e: &LogEntry, target: Status, id: &Option<String>, conv: &Option<String>) -> (r:
    bool)
    ensures
        r == selected(*e, target, opt_view(*id), opt_view(*conv)),
{
    match id {
        Some(i) => e.edit_id == *i,
        None => match conv {
            Some(c) => e.conversation_id == *c && match target {
                Status::Accepted => e.status == Status::Pending,
                Status::Rejected => e.status == Status::Pending || e.status == Status::Accepted,
                Status::Pending => false,
            },
            None => false,
        },
    }
}

fn owned(o: Option<&str>) -> (r: Option<String>)
    ensures
        opt_view(r) == sel_view(o),
{
    match o {
        Some(s) => Some(s.to_owned()),
        None => None,
    }
}

/// Sets the status of the records of one conversation log to `target_status`:
/// the record with `edit_id`, whatever its state, or every eligible record of
/// conversation `conversation_id`. Exactly one of the two must be given.
/// Returns the (conversation, file) pairs of the changed records, each once:
/// the files whose content must be rebuilt after a rejection.
pub fn modify_status(
    log: &mut Vec<LogEntry>,
    target_status: Status,
    edit_id: Option<&str>,
    conversation_id: Option<&str>,
) -> (r: Result<Vec<(String, String)>, SelectorError>)
    ensures
        edit_id is Some && conversation_id is Some ==> r == Err::<Vec<(String, String)>, SelectorError>(
            SelectorError::Conflicting,
        ) && final(log)@ == old(log)@,
        edit_id is None && conversation_id is None ==> r == Err::<Vec<(String, String)>, SelectorError>(
            SelectorError::Missing,
        ) && final(log)@ == old(log)@,
        edit_id is Some != conversation_id is Some ==> {
            let (id, conv) = (sel_view(edit_id), sel_view(conversation_id));
            &&& r is Ok
            &&& final(log)@.len() == old(log)@.len()
            &&& forall|i: int|
                0 <= i < old(log)@.len() ==> #[trigger] final(log)@[i] == if selected(
                    old(log)@[i],
                    target_status,
                    id,
                    conv,
                ) {
                    with_status(old(log)@[i], target_status)
                } else {
                    old(log)@[i]
                }
            &&& pairs_view(r->Ok_0@) == dedup(selected_pairs(old(log)@, target_status, id, conv))
        },
{
    if edit_id.is_some() && conversation_id.is_some() {
        return Err(SelectorError::Conflicting);
    }
    if edit_id.is_none() && conversation_id.is_none() {
        return Err(SelectorError::Missing);
    }
    let id = owned(edit_id);
    let conv = owned(conversation_id);
    let ghost idv = sel_view(edit_id);
    let ghost convv = sel_view(conversation_id);
    let ghost before = log@;
    let mut pairs: Vec<(String, String)> = Vec::new();
    let mut i: usize = 0;
    while i < log.len()
        invariant
            i <= log@.len(),
            log@.len() == before.len(),
            forall|k: int| i <= k < log@.len() ==> #[trigger] log@[k] == before[k],
            forall|k: int|
                0 <= k < i ==> #[trigger] log@[k] == if selected(
                    before[k],
                    target_status,
                    idv,
                    convv,
                ) {
                    with_status(before[k], target_status)
                } else {
                    before[k]
                },
            pairs_view(pairs@) == selected_pairs(before.take(i as int), target_status, idv, convv),
            opt_view(id) == idv,
            opt_view(conv) == convv,
        decreases before.len() - i,
    {
        let ghost p0 = pairs@;
        let chosen = is_selected(&log[i], target_status, &id, &conv);
        if chosen {
            pairs.push((log[i].conversation_id.clone(), log[i].file_path.clone()));
            log[i].status = target_status;
        }
        proof {
            let t = before.take(i + 1);
            assert(t.drop_last() =~= before.take(i as int));
            assert(t.last() == before[i as int]);
            if chosen {
                assert(pairs_view(pairs@) =~= pairs_view(p0).push(pair_of(before[i as int])));
            }
        }
        i = i + 1;
    }
    proof {
        assert(before.take(i as int) =~= before);
    }
    Ok(dedup_pairs(&pairs))
}

} // verus!
