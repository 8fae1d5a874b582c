//! The log as a sequence of newline-terminated records, and the index that
//! replaying it yields.
use vstd::prelude::*;
use crate::codec::{ron_decoded, NEWLINE};

verus! {

/// A decoded record: a key, and `Some(value)` for a `Set` or `None` for a
/// `Remove`.
pub type Record = (Seq<char>, Option<Seq<char>>);

/// The position of the first newline at or after `start`, or the log's length
/// where there is none.
pub open spec fn line_end(log: Seq<u8>, start: int) -> int
    decreases log.len() - start,
{
    if start < 0 || start >= log.len() {
        log.len() as int
    } else if log[start] == NEWLINE {
        start
    } else {
        line_end(log, start + 1)
    }
}

/// The text of the record that starts at `start`, without its newline.
pub open spec fn line_at(log: Seq<u8>, start: int) -> Seq<u8> {
    log.subrange(start, line_end(log, start))
}

/// A log is framed when it is empty or its last record ends with a newline.
pub open spec fn framed(log: Seq<u8>) -> bool {
    log.len() == 0 || log.last() == NEWLINE
}

/// The index after applying the record `r`, which starts at `at`.
pub open spec fn apply(idx: Map<Seq<char>, int>, r: Record, at: int) -> Map<Seq<char>, int> {
    match r.1 {
        Some(_) => idx.insert(r.0, at),
        None => idx.remove(r.0),
    }
}

/// Replays the records from `start` to the end of the log onto `idx`: each
/// `Set` maps its key to its own offset, each `Remove` drops its key. `None`
/// where a record does not decode or the last one lacks its newline.
pub open spec fn replay_from(log: Seq<u8>, start: int, idx: Map<Seq<char>, int>) -> Option<
    Map<Seq<char>, int>,
>
    decreases log.len() - start,
    via replay_from_decreases
{
    if start < 0 || start >= log.len() {
        Some(idx)
    } else {
        let end = line_end(log, start);
        if end >= log.len() {
            None
        } else {
            match ron_decoded(log.subrange(start, end)) {
                None => None,
                Some(r) => replay_from(log, end + 1, apply(idx, r, start)),
            }
        }
    }
}

#[via_fn]
proof fn replay_from_decreases(log: Seq<u8>, start: int, idx: Map<Seq<char>, int>) {
    if 0 <= start < log.len() {
        lemma_line_end_bounds(log, start);
    }
}

/// The index of a whole log.
pub open spec fn log_index(log: Seq<u8>) -> Option<Map<Seq<char>, int>> {
    replay_from(log, 0, Map::empty())
}

/// The value of the `Set` record at `off`.
pub open spec fn value_at(log: Seq<u8>, off: int) -> Seq<char> {
    match ron_decoded(line_at(log, off)) {
        Some((_, Some(v))) => v,
        _ => Seq::empty(),
    }
}

/// What each key of `idx` maps to: the value of the record it points at.
pub open spec fn index_state(log: Seq<u8>, idx: Map<Seq<char>, int>) -> Map<Seq<char>, Seq<char>> {
    Map::new(|k: Seq<char>| idx.contains_key(k), |k: Seq<char>| value_at(log, idx[k]))
}

/// The key-value state that a log holds, where it replays.
pub open spec fn log_state(log: Seq<u8>) -> Option<Map<Seq<char>, Seq<char>>> {
    match log_index(log) {
        Some(idx) => Some(index_state(log, idx)),
        None => None,
    }
}

/// At `off` stands a whole `Set` record of `key`.
pub open spec fn set_record_at(log: Seq<u8>, off: int, key: Seq<char>) -> bool {
    &&& 0 <= off
    &&& line_end(log, off) < log.len()
    &&& ron_decoded(line_at(log, off)) matches Some((k, Some(_))) && k == key
}

/// Every key of `idx` points at a whole `Set` record of that key.
pub open spec fn points_to_sets(log: Seq<u8>, idx: Map<Seq<char>, int>) -> bool {
    forall|k: Seq<char>| #[trigger] idx.contains_key(k) ==> set_record_at(log, idx[k], k)
}

pub proof fn lemma_line_end_bounds(log: Seq<u8>, start: int)
    requires
        0 <= start <= log.len(),
    ensures
        start <= line_end(log, start) <= log.len(),
        line_end(log, start) < log.len() ==> log[line_end(log, start)] == NEWLINE,
        forall|j: int| start <= j < line_end(log, start) ==> log[j] != NEWLINE,
    decreases log.len() - start,
{
    if start < log.len() && log[start] != NEWLINE {
        lemma_line_end_bounds(log, start + 1);
    }
}

/// `line_end` is the first newline at or after `start`.
pub proof fn lemma_line_end_at(log: Seq<u8>, start: int, end: int)
    requires
        0 <= start <= end < log.len(),
        log[end] == NEWLINE,
        forall|j: int| start <= j < end ==> log[j] != NEWLINE,
    ensures
        line_end(log, start) == end,
    decreases end - start,
{
    if start < end {
        lemma_line_end_at(log, start + 1, end);
    }
}

/// A record that ends inside `log` is untouched by what is appended after it.
pub proof fn lemma_line_stable(log: Seq<u8>, more: Seq<u8>, off: int)
    requires
        0 <= off,
        line_end(log, off) < log.len(),
    ensures
        line_end(log + more, off) == line_end(log, off),
        line_at(log + more, off) == line_at(log, off),
{
    lemma_line_end_bounds(log, off);
    let e = line_end(log, off);
    lemma_line_end_at(log + more, off, e);
    assert(line_at(log + more, off) =~= line_at(log, off));
}

/// Appending keeps every pointer into the old log pointing at the same record.
pub proof fn lemma_points_stable(log: Seq<u8>, more: Seq<u8>, idx: Map<Seq<char>, int>)
    requires
        points_to_sets(log, idx),
    ensures
        points_to_sets(log + more, idx),
        index_state(log + more, idx) == index_state(log, idx),
{
    assert forall|k: Seq<char>| #[trigger] idx.contains_key(k) implies set_record_at(log + more, idx[k], k)
        && value_at(log + more, idx[k]) == value_at(log, idx[k]) by {
        lemma_line_stable(log, more, idx[k]);
    }
    assert(index_state(log + more, idx) =~= index_state(log, idx));
}

/// The record just appended is found whole at the old end of the log.
pub proof fn lemma_appended_line(log: Seq<u8>, rec: Seq<u8>)
    requires
        !rec.contains(NEWLINE),
    ensures
        line_end(log + rec.push(NEWLINE), log.len() as int) == log.len() + rec.len(),
        line_at(log + rec.push(NEWLINE), log.len() as int) == rec,
{
    let l2 = log + rec.push(NEWLINE);
    assert forall|j: int| log.len() <= j < log.len() + rec.len() implies l2[j] != NEWLINE by {
        assert(l2[j] == rec[j - log.len()]);
    }
    lemma_line_end_at(l2, log.len() as int, (log.len() + rec.len()) as int);
    assert(line_at(l2, log.len() as int) =~= rec);
}

/// Replaying a framed log with one more record appended is replaying the log,
/// then applying that record.
pub proof fn lemma_replay_append(log: Seq<u8>, rec: Seq<u8>, start: int, idx: Map<Seq<char>, int>)
    requires
        framed(log),
        0 <= start <= log.len(),
        !rec.contains(NEWLINE),
        ron_decoded(rec) is Some,
    ensures
        replay_from(log + rec.push(NEWLINE), start, idx) == match replay_from(log, start, idx) {
            Some(m) => Some(apply(m, ron_decoded(rec).unwrap(), log.len() as int)),
            None => None,
        },
    decreases log.len() - start,
{
    let l2 = log + rec.push(NEWLINE);
    if start == log.len() {
        lemma_appended_line(log, rec);
        assert(l2.subrange(start, start + rec.len()) == line_at(l2, start));
        let m = apply(idx, ron_decoded(rec).unwrap(), start);
        assert(replay_from(l2, start + rec.len() + 1, m) == Some(m));
    } else {
        lemma_line_end_bounds(log, start);
        if line_end(log, start) == log.len() {
            assert(log[log.len() - 1] != NEWLINE);
        }
        lemma_line_stable(log, rec.push(NEWLINE), start);
        let end = line_end(log, start);
        assert(line_at(l2, start) == l2.subrange(start, end));
        match ron_decoded(log.subrange(start, end)) {
            None => {},
            Some(r) => {
                lemma_replay_append(log, rec, end + 1, apply(idx, r, start));
            },
        }
    }
}

} // verus!

verus! {

/// Replaying from a start whose index points only at `Set` records of their
/// keys ends in an index that does too.
pub proof fn lemma_replay_points(log: Seq<u8>, start: int, idx: Map<Seq<char>, int>)
    requires
        0 <= start,
        points_to_sets(log, idx),
        replay_from(log, start, idx) is Some,
    ensures
        points_to_sets(log, replay_from(log, start, idx).unwrap()),
    decreases log.len() - start,
{
    if start < log.len() {
        lemma_line_end_bounds(log, start);
        let end = line_end(log, start);
        let r = ron_decoded(log.subrange(start, end)).unwrap();
        let idx2 = apply(idx, r, start);
        assert forall|k: Seq<char>| #[trigger] idx2.contains_key(k) implies set_record_at(log, idx2[k], k) by {
            if k != r.0 {
                assert(idx.contains_key(k));
            }
        }
        lemma_replay_points(log, end + 1, idx2);
    }
}

/// A log that replays is framed.
pub proof fn lemma_replay_framed(log: Seq<u8>, start: int, idx: Map<Seq<char>, int>)
    requires
        0 <= start <= log.len(),
        start == 0 || log[start - 1] == NEWLINE,
        replay_from(log, start, idx) is Some,
    ensures
        framed(log),
    decreases log.len() - start,
{
    if start < log.len() {
        lemma_line_end_bounds(log, start);
        let end = line_end(log, start);
        let r = ron_decoded(log.subrange(start, end)).unwrap();
        lemma_replay_framed(log, end + 1, apply(idx, r, start));
    }
}

/// What a log that replays holds: it is framed, and its index points only at
/// `Set` records of their keys.
pub proof fn lemma_log_index_facts(log: Seq<u8>)
    requires
        log_index(log) is Some,
    ensures
        framed(log),
        points_to_sets(log, log_index(log).unwrap()),
{
    lemma_replay_framed(log, 0, Map::empty());
    lemma_replay_points(log, 0, Map::empty());
}

/// Appending a `Set` record of `k` to a log that replays maps `k` to the
/// record's offset in the index and to `v` in the state.
pub proof fn lemma_append_set(log: Seq<u8>, rec: Seq<u8>, k: Seq<char>, v: Seq<char>)
    requires
        log_index(log) is Some,
        !rec.contains(NEWLINE),
        ron_decoded(rec) == Some((k, Some(v))),
    ensures
        log_index(log + rec.push(NEWLINE)) == Some(log_index(log).unwrap().insert(k, log.len() as int)),
        log_state(log + rec.push(NEWLINE)) == Some(log_state(log).unwrap().insert(k, v)),
{
    let idx = log_index(log).unwrap();
    let l2 = log + rec.push(NEWLINE);
    lemma_log_index_facts(log);
    lemma_replay_append(log, rec, 0, Map::empty());
    lemma_points_stable(log, rec.push(NEWLINE), idx);
    lemma_appended_line(log, rec);
    let n2 = idx.insert(k, log.len() as int);
    assert forall|kk: Seq<char>| #[trigger] n2.contains_key(kk) && kk != k implies value_at(l2, n2[kk])
        == value_at(log, idx[kk]) by {
        assert(index_state(l2, idx)[kk] == index_state(log, idx)[kk]);
    }
    assert(index_state(l2, n2) =~= index_state(log, idx).insert(k, v));
}

/// Appending a `Remove` record of `k` to a log that replays drops `k`.
pub proof fn lemma_append_remove(log: Seq<u8>, rec: Seq<u8>, k: Seq<char>)
    requires
        log_index(log) is Some,
        !rec.contains(NEWLINE),
        ron_decoded(rec) == Some((k, None::<Seq<char>>)),
    ensures
        log_index(log + rec.push(NEWLINE)) == Some(log_index(log).unwrap().remove(k)),
        log_state(log + rec.push(NEWLINE)) == Some(log_state(log).unwrap().remove(k)),
{
    let idx = log_index(log).unwrap();
    let l2 = log + rec.push(NEWLINE);
    lemma_log_index_facts(log);
    lemma_replay_append(log, rec, 0, Map::empty());
    lemma_points_stable(log, rec.push(NEWLINE), idx);
    assert(index_state(l2, idx.remove(k)) =~= index_state(log, idx).remove(k));
}

/// Every key of `idx` points at the first byte of a line.
pub open spec fn starts_lines(log: Seq<u8>, idx: Map<Seq<char>, int>) -> bool {
    forall|k: Seq<char>| #[trigger] idx.contains_key(k) ==> idx[k] == 0 || log[idx[k] - 1] == NEWLINE
}

/// Replaying keeps every offset of the index at the start of a line.
pub proof fn lemma_replay_starts(log: Seq<u8>, start: int, idx: Map<Seq<char>, int>)
    requires
        0 <= start <= log.len(),
        start == 0 || log[start - 1] == NEWLINE,
        starts_lines(log, idx),
        replay_from(log, start, idx) is Some,
    ensures
        starts_lines(log, replay_from(log, start, idx).unwrap()),
    decreases log.len() - start,
{
    if start < log.len() {
        lemma_line_end_bounds(log, start);
        let end = line_end(log, start);
        let r = ron_decoded(log.subrange(start, end)).unwrap();
        let idx2 = apply(idx, r, start);
        assert forall|k: Seq<char>| #[trigger] idx2.contains_key(k) implies idx2[k] == 0 || log[idx2[k]
            - 1] == NEWLINE by {
            if k != r.0 {
                assert(idx.contains_key(k));
            }
        }
        lemma_replay_starts(log, end + 1, idx2);
    }
}

/// A line ends before the next line start.
pub proof fn lemma_lines_disjoint(log: Seq<u8>, a: int, b: int)
    requires
        0 <= a < b <= log.len(),
        log[b - 1] == NEWLINE,
    ensures
        line_end(log, a) < b,
{
    lemma_line_end_bounds(log, a);
}

/// The first newline at or after `start`.
pub fn find_line_end(log: &Vec<u8>, start: usize) -> (e: usize)
    requires
        start <= log@.len(),
    ensures
        e == line_end(log@, start as int),
{
    let mut i: usize = start;
    while i < log.len()
        invariant
            start <= i <= log@.len(),
            line_end(log@, i as int) == line_end(log@, start as int),
        decreases log@.len() - i,
    {
        if log[i] == NEWLINE {
            return i;
        }
        i = i + 1;
    }
    i
}

/// A copy of the bytes from `a` up to `b`.
pub fn copy_range(log: &Vec<u8>, a: usize, b: usize) -> (r: Vec<u8>)
    requires
        a <= b <= log@.len(),
    ensures
        r@ == log@.subrange(a as int, b as int),
{
    let mut r: Vec<u8> = Vec::new();
    let mut i: usize = a;
    while i < b
        invariant
            a <= i <= b <= log@.len(),
            r@ == log@.subrange(a as int, i as int),
        decreases b - i,
    {
        r.push(log[i]);
        i = i + 1;
        assert(r@ =~= log@.subrange(a as int, i as int));
    }
    r
}

} // verus!
