//! Laws that relate the store's operations to one another.
use vstd::prelude::*;
use crate::codec::{ron_decoded, NEWLINE};
use crate::replay::{
    index_state, lemma_appended_line, lemma_replay_append, log_index, log_state, framed,
};
use crate::store::{lookup, KvStore, COMPACTION_THRESHOLD};

verus! {

/// After `set(k, v)` succeeds, `get(k)` returns `v`.
pub proof fn law_set_then_get(before: KvStore, after: KvStore, k: Seq<char>, v: Seq<char>)
    requires
        before.state() is Some,
        after.state() == Some(before.state().unwrap().insert(k, v)),
    ensures
        lookup(after.state().unwrap(), k) == Some(v),
{
}

/// After `set(k, v1)` and then `set(k, v2)`, `get(k)` returns `v2`, and the
/// other keys are as they were before both.
pub proof fn law_overwrite(
    s0: KvStore,
    s1: KvStore,
    s2: KvStore,
    k: Seq<char>,
    v1: Seq<char>,
    v2: Seq<char>,
)
    requires
        s0.state() is Some,
        s1.state() == Some(s0.state().unwrap().insert(k, v1)),
        s2.state() == Some(s1.state().unwrap().insert(k, v2)),
    ensures
        lookup(s2.state().unwrap(), k) == Some(v2),
        s2.state() == Some(s0.state().unwrap().insert(k, v2)),
{
    assert(s0.state().unwrap().insert(k, v1).insert(k, v2) =~= s0.state().unwrap().insert(k, v2));
}

/// After `set(k, v)`, `k` is held, so `remove(k)` succeeds; after it, `get(k)`
/// returns nothing, and `k` is no longer held, so a second `remove(k)` fails
/// with `KeyNotFound`.
pub proof fn law_set_then_remove(s0: KvStore, s1: KvStore, s2: KvStore, k: Seq<char>, v: Seq<char>)
    requires
        s0.state() is Some,
        s1.state() == Some(s0.state().unwrap().insert(k, v)),
        s2.state() == Some(s1.state().unwrap().remove(k)),
    ensures
        s1.state().unwrap().contains_key(k),
        lookup(s2.state().unwrap(), k) is None,
        !s2.state().unwrap().contains_key(k),
{
}

/// A store opened again over the same log content holds the same state; so
/// after `set(k, v)` and writing out what it hands back, a reopened store
/// answers `v` for `k`.
pub proof fn law_reopen(s0: KvStore, s1: KvStore, reopened: KvStore, k: Seq<char>, v: Seq<char>)
    requires
        s0.state() is Some,
        s1.state() == Some(s0.state().unwrap().insert(k, v)),
        reopened.log_bytes() == s1.log_bytes(),
    ensures
        reopened.state() == s1.state(),
        lookup(reopened.state().unwrap(), k) == Some(v),
{
}

/// The `set` that crosses the compaction threshold leaves every other key
/// with the value it had just before.
pub proof fn law_compaction_keeps_state(
    before: KvStore,
    after: KvStore,
    k: Seq<char>,
    v: Seq<char>,
    other: Seq<char>,
)
    requires
        before.state() is Some,
        before.set_count() == COMPACTION_THRESHOLD,
        after.state() == Some(before.state().unwrap().insert(k, v)),
        other != k,
    ensures
        lookup(after.state().unwrap(), other) == lookup(before.state().unwrap(), other),
{
}

/// Replaying the records `Set(k, a)`, `Set(k, b)`, `Remove(k)`, `Set(k, c)`,
/// in this order, leaves `k` mapped to `c`: later records override earlier ones.
pub proof fn law_replay_order(
    k: Seq<char>,
    a: Seq<char>,
    b: Seq<char>,
    c: Seq<char>,
    ra: Seq<u8>,
    rb: Seq<u8>,
    rr: Seq<u8>,
    rc: Seq<u8>,
)
    requires
        !ra.contains(NEWLINE),
        !rb.contains(NEWLINE),
        !rr.contains(NEWLINE),
        !rc.contains(NEWLINE),
        ron_decoded(ra) == Some((k, Some(a))),
        ron_decoded(rb) == Some((k, Some(b))),
        ron_decoded(rr) == Some((k, None::<Seq<char>>)),
        ron_decoded(rc) == Some((k, Some(c))),
    ensures
        log_state(ra.push(NEWLINE) + rb.push(NEWLINE) + rr.push(NEWLINE) + rc.push(NEWLINE))
            == Some(map![k => c]),
{
    let l0 = Seq::<u8>::empty();
    let l1 = l0 + ra.push(NEWLINE);
    let l2 = l1 + rb.push(NEWLINE);
    let l3 = l2 + rr.push(NEWLINE);
    let l4 = l3 + rc.push(NEWLINE);
    assert(l1 =~= ra.push(NEWLINE));
    assert(log_index(l0) == Some(Map::<Seq<char>, int>::empty()));
    lemma_replay_append(l0, ra, 0, Map::empty());
    assert(framed(l1));
    lemma_replay_append(l1, rb, 0, Map::empty());
    assert(framed(l2));
    lemma_replay_append(l2, rr, 0, Map::empty());
    assert(framed(l3));
    lemma_replay_append(l3, rc, 0, Map::empty());
    let idx4 = map![k => l3.len() as int];
    assert(log_index(l4) == Some(idx4)) by {
        assert(Map::<Seq<char>, int>::empty().insert(k, 0).insert(k, l1.len() as int).remove(
            k,
        ).insert(k, l3.len() as int) =~= idx4);
    }
    lemma_appended_line(l3, rc);
    assert(index_state(l4, idx4) =~= map![k => c]);
}

} // verus!
