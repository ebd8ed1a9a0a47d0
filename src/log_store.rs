//! The on-disk form of a conversation log: one record per line.
//!
//! Reading splits the text into lines and drops the blank ones; decoding each
//! record, and skipping those that do not decode, is the caller's part.
//! Writing ends every record with a line feed.
use vstd::prelude::*;

verus! {

/// The lines of `text`, the current one begun with `cur`: split at line
/// feeds, with no line after a final line feed.
pub open spec fn split_lines(text: Seq<u8>, cur: Seq<u8>) -> Seq<Seq<u8>>
    decreases text.len(),
{
    if text.len() == 0 {
        if cur.len() == 0 {
            seq![]
        } else {
            seq![cur]
        }
    } else if text[0] == 10 {
        seq![cur] + split_lines(text.drop_first(), seq![])
    } else {
        split_lines(text.drop_first(), cur.push(text[0]))
    }
}

/// A line without its carriage return, if it ends in one.
pub open spec fn record_of_line(l: Seq<u8>) -> Seq<u8> {
    if l.len() > 0 && l.last() == 13 {
        l.drop_last()
    } else {
        l
    }
}

/// ASCII white space: space, tab, line feed, vertical tab, form feed, carriage return.
pub open spec fn is_space(b: u8) -> bool {
    b == 32 || (9 <= b && b <= 13)
}

/// Nothing but white space.
pub open spec fn is_blank(l: Seq<u8>) -> bool {
    forall|i: int| 0 <= i < l.len() ==> is_space(#[trigger] l[i])
}

/// The records among `lines`: each without its carriage return, the blank ones dropped.
pub open spec fn records_of_lines(lines: Seq<Seq<u8>>) -> Seq<Seq<u8>>
    decreases lines.len(),
{
    if lines.len() == 0 {
        seq![]
    } else {
        let r = record_of_line(lines[0]);
        let rest = records_of_lines(lines.drop_first());
        if is_blank(r) {
            rest
        } else {
            seq![r] + rest
        }
    }
}

/// The records of a log's text.
pub open spec fn records_of(text: Seq<u8>) -> Seq<Seq<u8>> {
    records_of_lines(split_lines(text, seq![]))
}

fn blank(l: &Vec<u8>) -> (r: bool)
    ensures
        r == is_blank(l@),
{
    let mut i: usize = 0;
    while i < l.len()
        invariant
            i <= l@.len(),
            forall|k: int| 0 <= k < i ==> is_space(#[trigger] l@[k]),
        decreases l@.len() - i,
    {
        let b = l[i];
        if !(b == 32 || (9 <= b && b <= 13)) {
            return false;
        }
        i = i + 1;
    }
    true
}

/// The bytes of each record.
pub open spec fn records_view(v: Seq<Vec<u8>>) -> Seq<Seq<u8>> {
    v.map_values(|l: Vec<u8>| l@)
}

/// The record of `line`, or nothing when blank.
pub open spec fn record_piece(line: Seq<u8>) -> Seq<Seq<u8>> {
    if is_blank(record_of_line(line)) {
        seq![]
    } else {
        seq![record_of_line(line)]
    }
}

/// Adds the record of `line` to `out` unless it is blank.
fn close_line(out: &mut Vec<Vec<u8>>, line: Vec<u8>)
    ensures
        records_view(final(out)@) == records_view(old(out)@) + record_piece(line@),
{
    let ghost l0 = line@;
    let mut rec = line;
    let n = rec.len();
    if n > 0 && rec[n - 1] == 13 {
        rec.pop();
        assert(rec@ =~= l0.drop_last());
    }
    assert(rec@ == record_of_line(l0));
    if !blank(&rec) {
        out.push(rec);
    }
    assert(records_view(final(out)@) =~= records_view(old(out)@) + record_piece(l0));
}

proof fn lemma_records_of_cons(l: Seq<u8>, rest: Seq<Seq<u8>>)
    ensures
        records_of_lines(seq![l] + rest) == record_piece(l) + records_of_lines(rest),
{
    let s = seq![l] + rest;
    assert(s[0] == l);
    assert(s.drop_first() =~= rest);
    if is_blank(record_of_line(l)) {
        assert(record_piece(l) + records_of_lines(rest) =~= records_of_lines(rest));
    }
}

/// Splits the text of a log into its records: the lines between line feeds,
/// each without a final carriage return, the blank ones dropped.
pub fn split_records(text: &[u8]) -> (r: Vec<Vec<u8>>)
    ensures
        records_view(r@) == records_of(text@),
{
    let mut out: Vec<Vec<u8>> = Vec::new();
    let mut cur: Vec<u8> = Vec::new();
    let mut i: usize = 0;
    assert(text@.skip(0) =~= text@);
    assert(records_view(out@) =~= Seq::<Seq<u8>>::empty());
    assert(cur@ =~= Seq::<u8>::empty());
    while i < text.len()
        invariant
            i <= text@.len(),
            records_of(text@) == records_view(out@) + records_of_lines(
                split_lines(text@.skip(i as int), cur@),
            ),
        decreases text@.len() - i,
    {
        let b = text[i];
        let ghost t = text@.skip(i as int);
        assert(t[0] == b);
        assert(t.drop_first() =~= text@.skip(i + 1));
        if b == 10 {
            let ghost c0 = cur@;
            let ghost o0 = records_view(out@);
            let line = cur;
            cur = Vec::new();
            close_line(&mut out, line);
            proof {
                lemma_records_of_cons(c0, split_lines(text@.skip(i + 1), seq![]));
                assert(cur@ =~= Seq::<u8>::empty());
                assert(records_view(out@) + records_of_lines(split_lines(text@.skip(i + 1), cur@))
                    =~= o0 + records_of_lines(split_lines(t, c0)));
            }
        } else {
            cur.push(b);
        }
        i = i + 1;
    }
    proof {
        let c0 = cur@;
        assert(text@.skip(i as int) =~= Seq::<u8>::empty());
        if c0.len() > 0 {
            lemma_records_of_cons(c0, seq![]);
            assert(seq![c0] + Seq::<Seq<u8>>::empty() =~= seq![c0]);
        } else {
            assert(is_blank(record_of_line(c0)));
        }
    }
    let ghost o0 = records_view(out@);
    let ghost c0 = cur@;
    close_line(&mut out, cur);
    proof {
        assert(records_of_lines(Seq::<Seq<u8>>::empty()) =~= Seq::<Seq<u8>>::empty());
        assert(records_view(out@) =~= o0 + record_piece(c0));
        if c0.len() > 0 {
            assert(record_piece(c0) + Seq::<Seq<u8>>::empty() =~= record_piece(c0));
        } else {
            assert(record_piece(c0) =~= Seq::<Seq<u8>>::empty());
        }
        assert(records_view(out@) =~= records_of(text@));
    }
    out
}

/// The text of a log holding `records`, each followed by a line feed.
pub open spec fn joined(records: Seq<Seq<u8>>) -> Seq<u8>
    decreases records.len(),
{
    if records.len() == 0 {
        seq![]
    } else {
        records[0] + seq![10u8] + joined(records.drop_first())
    }
}

/// Writes records as the text of a log, each followed by a line feed.
pub fn join_records(records: &Vec<Vec<u8>>) -> (r: Vec<u8>)
    ensures
        r@ == joined(records_view(records@)),
{
    let mut out: Vec<u8> = Vec::new();
    let mut i: usize = 0;
    let ghost rv = records_view(records@);
    assert(rv.skip(0) =~= rv);
    while i < records.len()
        invariant
            i <= records@.len(),
            rv == records_view(records@),
            joined(rv) == out@ + joined(rv.skip(i as int)),
        decreases records@.len() - i,
    {
        let rec = &records[i];
        let ghost o0 = out@;
        let mut j: usize = 0;
        while j < rec.len()
            invariant
                j <= rec@.len(),
                out@ == o0 + rec@.take(j as int),
            decreases rec@.len() - j,
        {
            out.push(rec[j]);
            proof {
                assert(rec@.take(j + 1) =~= rec@.take(j as int).push(rec@[j as int]));
                assert(out@ =~= o0 + rec@.take(j + 1));
            }
            j = j + 1;
        }
        out.push(10u8);
        proof {
            let t = rv.skip(i as int);
            assert(t[0] == rec@);
            assert(t.drop_first() =~= rv.skip(i + 1));
            assert(rec@.take(j as int) =~= rec@);
            assert(out@ + joined(rv.skip(i + 1)) =~= o0 + joined(t));
        }
        i = i + 1;
    }
    proof {
        assert(rv.skip(i as int) =~= Seq::<Seq<u8>>::empty());
        assert(out@ + Seq::<u8>::empty() =~= out@);
    }
    out
}

proof fn lemma_split_line_then_rest(r: Seq<u8>, rest: Seq<u8>, cur: Seq<u8>)
    requires
        forall|i: int| 0 <= i < r.len() ==> r[i] != 10,
    ensures
        split_lines(r + seq![10u8] + rest, cur) == seq![cur + r] + split_lines(rest, seq![]),
    decreases r.len(),
{
    let text = r + seq![10u8] + rest;
    if r.len() == 0 {
        assert(text =~= seq![10u8] + rest);
        assert(text.drop_first() =~= rest);
        assert(cur + r =~= cur);
    } else {
        assert(text[0] == r[0]);
        assert(text.drop_first() =~= r.drop_first() + seq![10u8] + rest);
        lemma_split_line_then_rest(r.drop_first(), rest, cur.push(r[0]));
        assert(cur.push(r[0]) + r.drop_first() =~= cur + r);
    }
}

/// A record that survives a write and a read: not blank, without a line feed,
/// and not ending in a carriage return.
pub open spec fn is_plain_record(r: Seq<u8>) -> bool {
    &&& !is_blank(r)
    &&& forall|i: int| 0 <= i < r.len() ==> r[i] != 10
    &&& r.last() != 13
}

/// Reading back what was written gives the same records.
pub proof fn lemma_records_round_trip(records: Seq<Seq<u8>>)
    requires
        forall|i: int| 0 <= i < records.len() ==> is_plain_record(#[trigger] records[i]),
    ensures
        records_of(joined(records)) == records,
    decreases records.len(),
{
    if records.len() > 0 {
        let r = records[0];
        let rest = records.drop_first();
        assert forall|i: int| 0 <= i < rest.len() implies is_plain_record(#[trigger] rest[i]) by {
            assert(rest[i] == records[i + 1]);
        }
        lemma_records_round_trip(rest);
        assert(is_plain_record(r));
        assert(r.len() > 0) by {
            if r.len() == 0 {
                assert(is_blank(r));
            }
        }
        lemma_split_line_then_rest(r, joined(rest), seq![]);
        assert(Seq::<u8>::empty() + r =~= r);
        lemma_records_of_cons(r, split_lines(joined(rest), seq![]));
        assert(record_of_line(r) == r);
        assert(records_of(joined(records)) =~= seq![r] + rest);
        assert(seq![r] + rest =~= records);
    }
}

/// The name of the log file of a conversation.
pub fn log_file_name(conversation_id: &String) -> (r: String)
    ensures
        r@ == conversation_id@ + ".log"@,
{
    let mut name = conversation_id.clone();
    name.append(".log");
    name
}

} // verus!
