//! The chronological order of a conversation log.
//!
//! Records are ordered by timestamp (compared as byte strings), then by
//! tool-call index; records equal on both keep their order in the log.
use vstd::prelude::*;
use vstd::utf8::encode_utf8;
use crate::entry::LogEntry;

verus! {

/// Strict lexicographic order on byte strings, as `Ord` orders `[u8]`.
pub open spec fn bytes_lt(a: Seq<u8>, b: Seq<u8>) -> bool
    decreases a.len(),
{
    if a.len() == 0 {
        b.len() > 0
    } else if b.len() == 0 {
        false
    } else if a[0] != b[0] {
        a[0] < b[0]
    } else {
        bytes_lt(a.drop_first(), b.drop_first())
    }
}

/// The bytes of a record's timestamp, the first sort key.
pub open spec fn timestamp_key(e: LogEntry) -> Seq<u8> {
    encode_utf8(e.timestamp@)
}

/// `a` comes strictly before `b` by (timestamp, tool-call index).
pub open spec fn happens_before(a: LogEntry, b: LogEntry) -> bool {
    bytes_lt(timestamp_key(a), timestamp_key(b)) || (timestamp_key(a) == timestamp_key(b)
        && a.tool_call_index < b.tool_call_index)
}

/// Places position `k` into the ordered positions `s`: after every position
/// whose record does not come strictly after the record at `k`.
pub open spec fn insert_in_order(es: Seq<LogEntry>, s: Seq<usize>, k: usize) -> Seq<usize>
    decreases s.len(),
{
    if s.len() == 0 {
        seq![k]
    } else if happens_before(es[k as int], es[s.last() as int]) {
        insert_in_order(es, s.drop_last(), k).push(s.last())
    } else {
        s.push(k)
    }
}

/// The positions `0 .. n` of the log in chronological order; a stable sort.
pub open spec fn chronological_positions(es: Seq<LogEntry>, n: nat) -> Seq<usize>
    decreases n,
{
    if n == 0 {
        seq![]
    } else {
        insert_in_order(es, chronological_positions(es, (n - 1) as nat), (n - 1) as usize)
    }
}

/// The whole log in chronological order.
pub open spec fn chronological(es: Seq<LogEntry>) -> Seq<LogEntry> {
    chronological_positions(es, es.len()).map_values(|i: usize| es[i as int])
}

proof fn lemma_bytes_lt_step(a: Seq<u8>, b: Seq<u8>, i: int)
    requires
        0 <= i < a.len(),
        i < b.len(),
        a[i] == b[i],
    ensures
        bytes_lt(a.skip(i), b.skip(i)) == bytes_lt(a.skip(i + 1), b.skip(i + 1)),
{
    assert(a.skip(i).drop_first() =~= a.skip(i + 1));
    assert(b.skip(i).drop_first() =~= b.skip(i + 1));
}

/// Compares two byte strings lexicographically.
pub fn bytes_less(a: &[u8], b: &[u8]) -> (r: bool)
    ensures
        r == bytes_lt(a@, b@),
{
    let mut i: usize = 0;
    assert(a@.skip(0) =~= a@);
    assert(b@.skip(0) =~= b@);
    while i < a.len() && i < b.len()
        invariant
            i <= a@.len(),
            i <= b@.len(),
            bytes_lt(a@, b@) == bytes_lt(a@.skip(i as int), b@.skip(i as int)),
        decreases a@.len() - i,
    {
        if a[i] != b[i] {
            return a[i] < b[i];
        }
        proof {
            lemma_bytes_lt_step(a@, b@, i as int);
        }
        i = i + 1;
    }
    i < b.len()
}

/// Whether record `a` comes strictly before record `b`.
pub fn entry_before(a: &LogEntry, b: &LogEntry) -> (r: bool)
    ensures
        r == happens_before(*a, *b),
{
    let ka = a.timestamp.as_str().as_bytes();
    let kb = b.timestamp.as_str().as_bytes();
    if bytes_less(ka, kb) {
        true
    } else if bytes_less(kb, ka) {
        false
    } else {
        proof {
            lemma_bytes_lt_total(ka@, kb@);
        }
        a.tool_call_index < b.tool_call_index
    }
}

/// Of two different byte strings, one is less than the other.
pub proof fn lemma_bytes_lt_total(a: Seq<u8>, b: Seq<u8>)
    ensures
        a != b ==> bytes_lt(a, b) || bytes_lt(b, a),
    decreases a.len(),
{
    if a.len() > 0 && b.len() > 0 && a[0] == b[0] {
        lemma_bytes_lt_total(a.drop_first(), b.drop_first());
        if a.drop_first() == b.drop_first() {
            assert(a =~= seq![a[0]] + a.drop_first());
            assert(b =~= seq![b[0]] + b.drop_first());
        }
    } else if a.len() == 0 && b.len() == 0 {
        assert(a =~= b);
    }
}

proof fn lemma_insert_in_order_members(es: Seq<LogEntry>, s: Seq<usize>, k: usize, bound: int)
    requires
        k < bound,
        forall|i: int| 0 <= i < s.len() ==> s[i] < bound,
    ensures
        insert_in_order(es, s, k).len() == s.len() + 1,
        forall|i: int|
            0 <= i < insert_in_order(es, s, k).len() ==> insert_in_order(es, s, k)[i] < bound,
    decreases s.len(),
{
    if s.len() > 0 && happens_before(es[k as int], es[s.last() as int]) {
        lemma_insert_in_order_members(es, s.drop_last(), k, bound);
    }
}

proof fn lemma_positions_in_range(es: Seq<LogEntry>, n: nat)
    requires
        n <= usize::MAX,
    ensures
        chronological_positions(es, n).len() == n,
        forall|i: int|
            0 <= i < n ==> (chronological_positions(es, n)[i] as int) < (n as int),
    decreases n,
{
    if n > 0 {
        lemma_positions_in_range(es, (n - 1) as nat);
        lemma_insert_in_order_members(
            es,
            chronological_positions(es, (n - 1) as nat),
            (n - 1) as usize,
            n as int,
        );
    }
}

proof fn lemma_bytes_lt_asym(a: Seq<u8>, b: Seq<u8>)
    ensures
        bytes_lt(a, b) ==> !bytes_lt(b, a),
    decreases a.len(),
{
    if a.len() > 0 && b.len() > 0 {
        lemma_bytes_lt_asym(a.drop_first(), b.drop_first());
    }
}

proof fn lemma_bytes_lt_asym_trans(a: Seq<u8>, b: Seq<u8>, c: Seq<u8>)
    ensures
        bytes_lt(a, b) ==> !bytes_lt(b, a),
        bytes_lt(a, b) && bytes_lt(b, c) ==> bytes_lt(a, c),
    decreases a.len(),
{
    lemma_bytes_lt_asym(a, b);
    if a.len() > 0 && b.len() > 0 && c.len() > 0 {
        lemma_bytes_lt_asym_trans(a.drop_first(), b.drop_first(), c.drop_first());
    }
}

/// `happens_before` is a strict order in which records not before one
/// another have equal keys.
proof fn lemma_order_facts(a: LogEntry, b: LogEntry, c: LogEntry)
    ensures
        happens_before(a, b) ==> !happens_before(b, a),
        !happens_before(b, a) && !happens_before(c, b) ==> !happens_before(c, a),
        happens_before(a, b) && !happens_before(c, b) ==> !happens_before(c, a),
{
    let (ka, kb, kc) = (timestamp_key(a), timestamp_key(b), timestamp_key(c));
    lemma_bytes_lt_total(ka, kb);
    lemma_bytes_lt_total(kb, kc);
    lemma_bytes_lt_total(ka, kc);
    lemma_bytes_lt_asym_trans(ka, kb, kc);
    lemma_bytes_lt_asym_trans(kb, ka, kc);
    lemma_bytes_lt_asym_trans(kc, kb, ka);
    lemma_bytes_lt_asym_trans(ka, kc, kb);
    lemma_bytes_lt_asym_trans(kb, kc, ka);
    lemma_bytes_lt_asym_trans(kc, ka, kb);
    lemma_bytes_lt_asym_trans(ka, ka, ka);
}

/// `s` lists distinct positions, none after one whose record it comes
/// strictly before, and records with equal keys in log order.
pub open spec fn stably_sorted(es: Seq<LogEntry>, s: Seq<usize>) -> bool {
    &&& forall|i: int, j: int| 0 <= i < j < s.len() ==> s[i] != s[j]
    &&& forall|i: int, j: int|
        0 <= i < j < s.len() ==> !happens_before(es[s[j] as int], es[s[i] as int])
    &&& forall|i: int, j: int|
        0 <= i < j < s.len() && !happens_before(es[s[i] as int], es[s[j] as int]) ==> s[i] < s[j]
}

proof fn lemma_insert_sorted(es: Seq<LogEntry>, s: Seq<usize>, k: usize)
    requires
        k < es.len(),
        forall|i: int| 0 <= i < s.len() ==> s[i] < k,
        stably_sorted(es, s),
    ensures
        stably_sorted(es, insert_in_order(es, s, k)),
        forall|y: usize| #[trigger]
            insert_in_order(es, s, k).contains(y) <==> (y == k || s.contains(y)),
    decreases s.len(),
{
    let r = insert_in_order(es, s, k);
    if s.len() == 0 {
        assert forall|y: usize| #[trigger] r.contains(y) <==> (y == k || s.contains(y)) by {
            if y == k {
                assert(r[0] == k);
            }
        }
    } else {
        let last = s.last();
        let sd = s.drop_last();
        assert forall|i: int| 0 <= i < sd.len() implies sd[i] == s[i] by {}
        if happens_before(es[k as int], es[last as int]) {
            lemma_insert_sorted(es, sd, k);
            let t = insert_in_order(es, sd, k);
            assert(r == t.push(last));
            assert forall|i: int| 0 <= i < t.len() implies t[i] != last && !happens_before(
                es[last as int],
                es[t[i] as int],
            ) && (!happens_before(es[t[i] as int], es[last as int]) ==> t[i] < last) by {
                assert(t.contains(t[i]));
                if t[i] == k {
                    lemma_order_facts(es[k as int], es[last as int], es[k as int]);
                } else {
                    let j = choose|j: int| 0 <= j < sd.len() && sd[j] == t[i];
                    assert(s[j] == t[i]);
                    assert(s[s.len() - 1] == last);
                }
            }
            assert forall|y: usize| #[trigger] r.contains(y) <==> (y == k || s.contains(y)) by {
                if r.contains(y) {
                    let i = choose|i: int| 0 <= i < r.len() && r[i] == y;
                    if i < t.len() {
                        assert(t.contains(y));
                        if y != k {
                            let j = choose|j: int| 0 <= j < sd.len() && sd[j] == y;
                            assert(s[j] == y);
                        }
                    } else {
                        assert(s[s.len() - 1] == y);
                    }
                }
                if y == k {
                    assert(t.contains(y));
                    let i = choose|i: int| 0 <= i < t.len() && t[i] == y;
                    assert(r[i] == y);
                } else if s.contains(y) {
                    let j = choose|j: int| 0 <= j < s.len() && s[j] == y;
                    if j < s.len() - 1 {
                        assert(sd[j] == y);
                        assert(sd.contains(y));
                        assert(t.contains(y));
                        let i = choose|i: int| 0 <= i < t.len() && t[i] == y;
                        assert(r[i] == y);
                    } else {
                        assert(r[r.len() - 1] == y);
                    }
                }
            }
        } else {
            assert(r == s.push(k));
            assert forall|i: int| 0 <= i < s.len() implies !happens_before(
                es[k as int],
                es[s[i] as int],
            ) by {
                if i < s.len() - 1 {
                    lemma_order_facts(es[s[i] as int], es[last as int], es[k as int]);
                }
            }
            assert forall|y: usize| #[trigger] r.contains(y) <==> (y == k || s.contains(y)) by {
                if r.contains(y) {
                    let i = choose|i: int| 0 <= i < r.len() && r[i] == y;
                    if i < s.len() {
                        assert(s[i] == y);
                    }
                }
                if y == k {
                    assert(r[s.len() as int] == y);
                } else if s.contains(y) {
                    let j = choose|j: int| 0 <= j < s.len() && s[j] == y;
                    assert(r[j] == y);
                }
            }
        }
    }
}

/// The chronological order is a stable sort of the log: it lists each
/// position once, never puts a record after one that it comes strictly
/// before, and keeps records with equal timestamp and index in log order.
pub proof fn lemma_chronological_sorted(es: Seq<LogEntry>, n: nat)
    requires
        n <= es.len(),
        n <= usize::MAX,
    ensures
        chronological_positions(es, n).len() == n,
        forall|i: int| 0 <= i < n ==> (chronological_positions(es, n)[i] as int) < (n as int),
        stably_sorted(es, chronological_positions(es, n)),
    decreases n,
{
    lemma_positions_in_range(es, n);
    if n > 0 {
        lemma_chronological_sorted(es, (n - 1) as nat);
        lemma_insert_sorted(es, chronological_positions(es, (n - 1) as nat), (n - 1) as usize);
    }
}

/// The positions of the log's records in chronological order.
pub fn chronological_order(entries: &Vec<LogEntry>) -> (ord: Vec<usize>)
    ensures
        ord@ == chronological_positions(entries@, entries@.len()),
        ord@.len() == entries@.len(),
        forall|i: int| 0 <= i < ord@.len() ==> ord@[i] < entries@.len(),
        stably_sorted(entries@, ord@),
{
    let mut ord: Vec<usize> = Vec::new();
    let mut k: usize = 0;
    while k < entries.len()
        invariant
            k <= entries@.len(),
            ord@ == chronological_positions(entries@, k as nat),
        decreases entries@.len() - k,
    {
        let ghost s = ord@;
        proof {
            lemma_positions_in_range(entries@, k as nat);
        }
        let mut j: usize = ord.len();
        assert(s.take(j as int) =~= s);
        assert(s.skip(j as int) =~= seq![]);
        while j > 0 && entry_before(&entries[k], &entries[ord[j - 1]])
            invariant
                k < entries@.len(),
                ord@ == s,
                j <= s.len(),
                forall|i: int| 0 <= i < s.len() ==> s[i] < entries@.len(),
                insert_in_order(entries@, s, k) == insert_in_order(entries@, s.take(j as int), k)
                    + s.skip(j as int),
            decreases j,
        {
            proof {
                let t = s.take(j as int);
                assert(t.drop_last() =~= s.take(j - 1));
                assert(s.skip(j - 1) =~= seq![s[j - 1]] + s.skip(j as int));
                assert(insert_in_order(entries@, s.take(j - 1), k).push(s[j - 1]) + s.skip(
                    j as int,
                ) =~= insert_in_order(entries@, s.take(j - 1), k) + s.skip(j - 1));
            }
            j = j - 1;
        }
        ord.insert(j, k);
        proof {
            assert(ord@ =~= s.take(j as int).push(k) + s.skip(j as int));
            if j > 0 {
                assert(s.take(j as int).drop_last() =~= s.take(j - 1));
            }
            assert(ord@ =~= insert_in_order(entries@, s, k));
        }
        k = k + 1;
    }
    proof {
        lemma_chronological_sorted(entries@, entries@.len());
    }
    ord
}

} // verus!
