//! Choosing records to list or show, in chronological order.
use vstd::prelude::*;
use crate::entry::{opt_view, LogEntry, Status};
use crate::order::{chronological_order, chronological_positions};
use crate::status::sel_view;

verus! {

/// Record `e` is one that `show` names by `id`: its own edit id or its conversation's id.
pub open spec fn shown(e: LogEntry, id: Seq<char>) -> bool {
    e.edit_id@ == id || e.conversation_id@ == id
}

/// The positions in `ord` whose records are shown for `id`, in the order of `ord`.
pub open spec fn shown_positions(es: Seq<LogEntry>, ord: Seq<usize>, id: Seq<char>) -> Seq<usize>
    decreases ord.len(),
{
    if ord.len() == 0 {
        seq![]
    } else {
        let rest = shown_positions(es, ord.drop_last(), id);
        if shown(es[ord.last() as int], id) {
            rest.push(ord.last())
        } else {
            rest
        }
    }
}

/// The records whose diffs `show` prints for `identifier`, an edit id or a
/// conversation id: the positions in the log, oldest record first.
pub fn handle_show(entries: &Vec<LogEntry>, identifier: &str) -> (r: Vec<usize>)
    ensures
        r@ == shown_positions(
            entries@,
            chronological_positions(entries@, entries@.len()),
            identifier@,
        ),
{
    let ord = chronological_order(entries);
    let id = identifier.to_owned();
    let mut r: Vec<usize> = Vec::new();
    let mut i: usize = 0;
    while i < ord.len()
        invariant
            i <= ord@.len(),
            ord@.len() == entries@.len(),
            forall|k: int| 0 <= k < ord@.len() ==> ord@[k] < entries@.len(),
            id@ == identifier@,
            r@ == shown_positions(entries@, ord@.take(i as int), identifier@),
        decreases ord@.len() - i,
    {
        proof {
            assert(ord@.take(i + 1).drop_last() =~= ord@.take(i as int));
        }
        let e = &entries[ord[i]];
        if e.edit_id == id || e.conversation_id == id {
            r.push(ord[i]);
        }
        i = i + 1;
    }
    proof {
        assert(ord@.take(i as int) =~= ord@);
    }
    r
}

/// Record `e` passes the listing's filters: conversation, status, and file,
/// which matches either the record's path or the source of a move.
pub open spec fn listed(
    e: LogEntry,
    conv: Option<Seq<char>>,
    file: Option<Seq<char>>,
    status: Option<Status>,
) -> bool {
    &&& (conv is None || e.conversation_id@ == conv->0)
    &&& (status is None || e.status == status->0)
    &&& (file is None || e.file_path@ == file->0 || opt_view(e.source_path) == file)
}

/// The positions in `ord` whose records pass the listing's filters.
pub open spec fn listed_positions(
    es: Seq<LogEntry>,
    ord: Seq<usize>,
    conv: Option<Seq<char>>,
    file: Option<Seq<char>>,
    status: Option<Status>,
) -> Seq<usize>
    decreases ord.len(),
{
    if ord.len() == 0 {
        seq![]
    } else {
        let rest = listed_positions(es, ord.drop_last(), conv, file, status);
        if listed(es[ord.last() as int], conv, file, status) {
            rest.push(ord.last())
        } else {
            rest
        }
    }
}

/// The newest `limit` elements of `s`, or all of them when `limit` is 0.
pub open spec fn newest(s: Seq<usize>, limit: usize) -> Seq<usize> {
    if limit > 0 && s.len() > limit {
        s.skip(s.len() - limit)
    } else {
        s
    }
}

fn opt_str_eq(o: &Option<String>, s: &String) -> (r: bool)
    ensures
        r == (opt_view(*o) == Some(s@)),
{
    match o {
        Some(x) => *x == *s,
        None => false,
    }
}

/// The records that `status` lists: those passing the filters, oldest first,
/// and of them only the newest `limit` when `limit` is not 0.
pub fn status_listing(
    entries: &Vec<LogEntry>,
    conv: Option<&str>,
    file: Option<&str>,
    status: Option<Status>,
    limit: usize,
) -> (r: Vec<usize>)
    ensures
        r@ == newest(
            listed_positions(
                entries@,
                chronological_positions(entries@, entries@.len()),
                sel_view(conv),
                sel_view(file),
                status,
            ),
            limit,
        ),
{
    let ord = chronological_order(entries);
    let conv_s: Option<String> = match conv {
        Some(c) => Some(c.to_owned()),
        None => None,
    };
    let file_s: Option<String> = match file {
        Some(f) => Some(f.to_owned()),
        None => None,
    };
    let ghost cv = sel_view(conv);
    let ghost fv = sel_view(file);
    let mut all: Vec<usize> = Vec::new();
    let mut i: usize = 0;
    while i < ord.len()
        invariant
            i <= ord@.len(),
            ord@.len() == entries@.len(),
            forall|k: int| 0 <= k < ord@.len() ==> ord@[k] < entries@.len(),
            opt_view(conv_s) == cv,
            opt_view(file_s) == fv,
            all@ == listed_positions(entries@, ord@.take(i as int), cv, fv, status),
            all@.len() <= i,
        decreases ord@.len() - i,
    {
        proof {
            assert(ord@.take(i + 1).drop_last() =~= ord@.take(i as int));
        }
        let e = &entries[ord[i]];
        let conv_ok = match &conv_s {
            Some(c) => e.conversation_id == *c,
            None => true,
        };
        let status_ok = match status {
            Some(s) => e.status == s,
            None => true,
        };
        let file_ok = match &file_s {
            Some(f) => e.file_path == *f || opt_str_eq(&e.source_path, f),
            None => true,
        };
        if conv_ok && status_ok && file_ok {
            all.push(ord[i]);
        }
        i = i + 1;
    }
    proof {
        assert(ord@.take(i as int) =~= ord@);
    }
    if limit > 0 && all.len() > limit {
        let start = all.len() - limit;
        let mut r: Vec<usize> = Vec::new();
        let mut j: usize = start;
        while j < all.len()
            invariant
                start <= j <= all@.len(),
                r@ == all@.subrange(start as int, j as int),
            decreases all@.len() - j,
        {
            r.push(all[j]);
            proof {
                assert(r@ =~= all@.subrange(start as int, j + 1));
            }
            j = j + 1;
        }
        proof {
            assert(r@ =~= all@.skip(start as int));
        }
        r
    } else {
        all
    }
}

} // verus!
