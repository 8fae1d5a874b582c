//! The store: a log image, and an index from each live key to the offset of
//! its latest `Set` record, built by replaying the log on first need.
use vstd::prelude::*;
use crate::codec::{decode_record, encode_record, opt_view, ron_decoded, ron_record, NEWLINE};
use crate::error::KvStoreError;
use vstd::set_lib::{lemma_int_range, lemma_len_subset, set_int_range};
use crate::replay::{
    copy_range, find_line_end, lemma_line_stable, lemma_lines_disjoint, lemma_replay_starts, line_end, starts_lines, lemma_append_remove, lemma_append_set, lemma_log_index_facts, framed, index_state, lemma_appended_line, lemma_line_end_bounds,
    lemma_points_stable, line_at, log_index,
    log_state, points_to_sets, replay_from, set_record_at, value_at,
};

verus! {

/// Number of `set` calls after which the log is compacted.
pub const COMPACTION_THRESHOLD: u64 = 100;

/// What the caller must do to the log file after a write.
pub enum LogWrite {
    /// Append these bytes at its end.
    Append(Vec<u8>),
    /// Replace its whole content by these bytes.
    Rewrite(Vec<u8>),
}

/// The entries `v` hold exactly the map `idx`, each key once.
pub open spec fn index_matches(v: Seq<(String, u64)>, idx: Map<Seq<char>, int>) -> bool {
    &&& forall|i: int|
        0 <= i < v.len() ==> #[trigger] idx.contains_key(v[i].0@) && idx[v[i].0@] == v[i].1
    &&& forall|k: Seq<char>|
        #[trigger] idx.contains_key(k) ==> exists|i: int| 0 <= i < v.len() && v[i].0@ == k
    &&& forall|i: int, j: int| 0 <= i < j < v.len() ==> v[i].0@ != v[j].0@
}

fn index_find(map: &Vec<(String, u64)>, key: &String) -> (r: Option<usize>)
    ensures
        r matches Some(i) ==> i < map@.len() && map@[i as int].0@ == key@,
        r is None ==> forall|i: int| 0 <= i < map@.len() ==> map@[i].0@ != key@,
{
    let mut i: usize = 0;
    while i < map.len()
        invariant
            i <= map@.len(),
            forall|j: int| 0 <= j < i ==> map@[j].0@ != key@,
        decreases map@.len() - i,
    {
        if map[i].0 == *key {
            return Some(i);
        }
        i = i + 1;
    }
    None
}

fn index_insert(map: &mut Vec<(String, u64)>, key: String, off: u64, Ghost(idx): Ghost<
    Map<Seq<char>, int>,
>)
    requires
        index_matches(old(map)@, idx),
    ensures
        index_matches(final(map)@, idx.insert(key@, off as int)),
{
    match index_find(map, &key) {
        Some(i) => {
            let ghost k = key@;
            map.set(i, (key, off));
            let ghost nidx = idx.insert(k, off as int);
            assert forall|kk: Seq<char>| #[trigger] nidx.contains_key(kk) implies exists|j: int|
                0 <= j < map@.len() && map@[j].0@ == kk by {
                if kk == k {
                    assert(map@[i as int].0@ == kk);
                } else {
                    assert(idx.contains_key(kk));
                    let j = choose|j: int| 0 <= j < old(map)@.len() && old(map)@[j].0@ == kk;
                    assert(map@[j].0@ == kk);
                }
            }
        },
        None => {
            let ghost k = key@;
            map.push((key, off));
            let ghost nidx = idx.insert(k, off as int);
            assert forall|kk: Seq<char>| #[trigger] nidx.contains_key(kk) implies exists|j: int|
                0 <= j < map@.len() && map@[j].0@ == kk by {
                if kk == k {
                    assert(map@[map@.len() - 1].0@ == kk);
                } else {
                    assert(idx.contains_key(kk));
                    let j = choose|j: int| 0 <= j < old(map)@.len() && old(map)@[j].0@ == kk;
                    assert(map@[j].0@ == kk);
                }
            }
        },
    }
}

fn index_remove(map: &mut Vec<(String, u64)>, key: &String, Ghost(idx): Ghost<Map<Seq<char>, int>>)
    requires
        index_matches(old(map)@, idx),
    ensures
        index_matches(final(map)@, idx.remove(key@)),
{
    match index_find(map, key) {
        Some(i) => {
            map.remove(i);
            let ghost nidx = idx.remove(key@);
            assert forall|j: int| 0 <= j < map@.len() implies #[trigger] nidx.contains_key(
                map@[j].0@,
            ) && nidx[map@[j].0@] == map@[j].1 by {
                if j < i {
                    assert(map@[j] == old(map)@[j]);
                } else {
                    assert(map@[j] == old(map)@[j + 1]);
                }
            }
            assert forall|kk: Seq<char>| #[trigger] nidx.contains_key(kk) implies exists|j: int|
                0 <= j < map@.len() && map@[j].0@ == kk by {
                assert(idx.contains_key(kk));
                let j = choose|j: int| 0 <= j < old(map)@.len() && old(map)@[j].0@ == kk;
                if j < i {
                    assert(map@[j].0@ == kk);
                } else {
                    assert(j != i);
                    assert(map@[j - 1].0@ == kk);
                }
            }
            assert forall|a: int, b: int| 0 <= a < b < map@.len() implies map@[a].0@
                != map@[b].0@ by {
                let oa = if a < i { a } else { a + 1 };
                let ob = if b < i { b } else { b + 1 };
                assert(map@[a] == old(map)@[oa]);
                assert(map@[b] == old(map)@[ob]);
            }
        },
        None => {
            assert(idx.remove(key@) =~= idx) by {
                if idx.contains_key(key@) {
                    let j = choose|j: int| 0 <= j < map@.len() && map@[j].0@ == key@;
                }
            }
        },
    }
}

/// What `m` maps `k` to, if anything.
pub open spec fn lookup(m: Map<Seq<char>, Seq<char>>, k: Seq<char>) -> Option<Seq<char>> {
    if m.contains_key(k) {
        Some(m[k])
    } else {
        None
    }
}

/// The log that compaction writes for the index entries `v` over `log`: one
/// `Set` record for each entry, with the value that the entry points at.
pub open spec fn compacted(log: Seq<u8>, v: Seq<(String, u64)>) -> Seq<u8>
    decreases v.len(),
{
    if v.len() == 0 {
        Seq::empty()
    } else {
        compacted(log, v.drop_last()) + ron_record(v.last().0@, Some(value_at(log, v.last().1 as int)))
            .push(NEWLINE)
    }
}

/// Every record that the index of `log` points at is exactly what the
/// encoder writes for it, as in a log that this store wrote.
pub open spec fn encoder_written(log: Seq<u8>) -> bool {
    &&& log_index(log) is Some
    &&& forall|k: Seq<char>| #[trigger]
        log_index(log).unwrap().contains_key(k) ==> line_at(log, log_index(log).unwrap()[k])
            == ron_record(k, Some(value_at(log, log_index(log).unwrap()[k])))
}

/// The byte positions that the records of the entries `v` take in `log`,
/// newlines included.
pub open spec fn covered(log: Seq<u8>, v: Seq<(String, u64)>) -> Set<int>
    decreases v.len(),
{
    if v.len() == 0 {
        Set::empty()
    } else {
        covered(log, v.drop_last()).union(
            set_int_range(v.last().1 as int, line_end(log, v.last().1 as int) + 1),
        )
    }
}

/// The records of distinct index entries of a log that this store wrote take
/// as many bytes as their compacted form, all inside the log.
proof fn lemma_covered(log: Seq<u8>, v: Seq<(String, u64)>, idx: Map<Seq<char>, int>)
    requires
        log_index(log) == Some(idx),
        encoder_written(log),
        points_to_sets(log, idx),
        starts_lines(log, idx),
        forall|i: int|
            0 <= i < v.len() ==> #[trigger] idx.contains_key(v[i].0@) && idx[v[i].0@] == v[i].1,
        forall|i: int, j: int| 0 <= i < j < v.len() ==> v[i].0@ != v[j].0@,
    ensures
        covered(log, v).finite(),
        covered(log, v).len() == compacted(log, v).len(),
        covered(log, v).subset_of(set_int_range(0, log.len() as int)),
        forall|p: int| #[trigger]
            covered(log, v).contains(p) ==> exists|j: int|
                0 <= j < v.len() && #[trigger] v[j].1 <= p <= line_end(log, v[j].1 as int),
    decreases v.len(),
{
    if v.len() > 0 {
        let w = v.drop_last();
        assert forall|i: int| 0 <= i < w.len() implies #[trigger] idx.contains_key(w[i].0@) && idx[w[i].0@]
            == w[i].1 by {
            assert(w[i] == v[i]);
        }
        assert forall|i: int, j: int| 0 <= i < j < w.len() implies w[i].0@ != w[j].0@ by {
            assert(w[i] == v[i] && w[j] == v[j]);
        }
        lemma_covered(log, w, idx);
        let n = v.len() - 1;
        let k = v[n].0@;
        let off = v[n].1 as int;
        assert(idx.contains_key(k));
        let e = line_end(log, off);
        lemma_line_end_bounds(log, off);
        let iv = set_int_range(off, e + 1);
        lemma_int_range(off, e + 1);
        let c = covered(log, w);
        assert(c.disjoint(iv)) by {
            assert forall|p: int| c.contains(p) implies !iv.contains(p) by {
                let j = choose|j: int| 0 <= j < w.len() && #[trigger] w[j].1 <= p <= line_end(log, w[j].1 as int);
                assert(w[j] == v[j]);
                let kj = v[j].0@;
                let oj = v[j].1 as int;
                assert(idx.contains_key(kj));
                if iv.contains(p) {
                    if oj < off {
                        lemma_lines_disjoint(log, oj, off);
                    } else if off < oj {
                        lemma_lines_disjoint(log, off, oj);
                    } else {
                        assert(set_record_at(log, oj, kj));
                        assert(set_record_at(log, off, k));
                    }
                }
            }
        }
        vstd::set_lib::lemma_set_disjoint_lens(c, iv);
        assert(log_index(log).unwrap().contains_key(k));
        assert(line_at(log, off) == ron_record(k, Some(value_at(log, off))));
        assert forall|p: int| #[trigger] covered(log, v).contains(p) implies exists|j: int|
            0 <= j < v.len() && #[trigger] v[j].1 <= p <= line_end(log, v[j].1 as int) by {
            if c.contains(p) {
                let j = choose|j: int| 0 <= j < w.len() && #[trigger] w[j].1 <= p <= line_end(log, w[j].1 as int);
                assert(w[j] == v[j]);
            } else {
                assert(v[n].1 <= p <= line_end(log, v[n].1 as int));
            }
        }
    }
}

/// An empty log is one that this store wrote.
pub proof fn lemma_empty_written()
    ensures
        encoder_written(Seq::empty()),
{
    assert(log_index(Seq::<u8>::empty()) == Some(Map::<Seq<char>, int>::empty()));
}

/// Appending the encoder's `Set` record keeps a log one that this store wrote.
proof fn lemma_append_set_written(log: Seq<u8>, rec: Seq<u8>, k: Seq<char>, v: Seq<char>)
    requires
        encoder_written(log),
        rec == ron_record(k, Some(v)),
        !rec.contains(NEWLINE),
        ron_decoded(rec) == Some((k, Some(v))),
    ensures
        encoder_written(log + rec.push(NEWLINE)),
{
    let l2 = log + rec.push(NEWLINE);
    let idx = log_index(log).unwrap();
    lemma_log_index_facts(log);
    lemma_append_set(log, rec, k, v);
    lemma_appended_line(log, rec);
    let n2 = log_index(l2).unwrap();
    assert forall|kk: Seq<char>| #[trigger] n2.contains_key(kk) implies line_at(l2, n2[kk])
        == ron_record(kk, Some(value_at(l2, n2[kk]))) by {
        if kk != k {
            assert(idx.contains_key(kk));
            lemma_line_stable(log, rec.push(NEWLINE), idx[kk]);
        }
    }
}

/// Appending the encoder's `Remove` record keeps a log one that this store wrote.
proof fn lemma_append_remove_written(log: Seq<u8>, rec: Seq<u8>, k: Seq<char>)
    requires
        encoder_written(log),
        !rec.contains(NEWLINE),
        ron_decoded(rec) == Some((k, None::<Seq<char>>)),
    ensures
        encoder_written(log + rec.push(NEWLINE)),
{
    let l2 = log + rec.push(NEWLINE);
    let idx = log_index(log).unwrap();
    lemma_log_index_facts(log);
    lemma_append_remove(log, rec, k);
    let n2 = log_index(l2).unwrap();
    assert forall|kk: Seq<char>| #[trigger] n2.contains_key(kk) implies line_at(l2, n2[kk])
        == ron_record(kk, Some(value_at(l2, n2[kk]))) by {
        assert(idx.contains_key(kk));
        lemma_line_stable(log, rec.push(NEWLINE), idx[kk]);
    }
}

/// A key-value store over the image of its log file.
pub struct KvStore {
    log: Vec<u8>,
    map: Vec<(String, u64)>,
    idx: Ghost<Map<Seq<char>, int>>,
    is_build: bool,
    count_of_set: u64,
}

impl KvStore {
    /// The bytes of the log.
    pub closed spec fn log_bytes(&self) -> Seq<u8> {
        self.log@
    }

    /// The key-value state that the log holds, or `None` where it does not replay.
    pub open spec fn state(&self) -> Option<Map<Seq<char>, Seq<char>>> {
        log_state(self.log_bytes())
    }

    /// Whether the index has been built from the log.
    pub closed spec fn built(&self) -> bool {
        self.is_build
    }

    /// The `set` calls since opening or since the last compaction.
    pub closed spec fn set_count(&self) -> u64 {
        self.count_of_set
    }

    /// The index matches the log once it has been built.
    pub closed spec fn wf(&self) -> bool {
        &&& self.is_build ==> {
            &&& framed(self.log@)
            &&& log_index(self.log@) == Some(self.idx@)
            &&& points_to_sets(self.log@, self.idx@)
            &&& index_matches(self.map@, self.idx@)
        }
        &&& self.count_of_set <= COMPACTION_THRESHOLD
    }

    /// A store over the given log content, with its index not yet built.
    pub fn open(log: Vec<u8>) -> (r: KvStore)
        ensures
            r.wf(),
            r.log_bytes() == log@,
            !r.built(),
            r.set_count() == 0,
    {
        KvStore { log, map: Vec::new(), idx: Ghost(Map::empty()), is_build: false, count_of_set: 0 }
    }

    /// Replays the whole log into the index, unless that was done already.
    fn build_map(&mut self) -> (r: Result<(), KvStoreError>)
        requires
            old(self).wf(),
        ensures
            final(self).wf(),
            final(self).log@ == old(self).log@,
            final(self).count_of_set == old(self).count_of_set,
            r is Ok <==> log_index(old(self).log@) is Some,
            r is Ok ==> final(self).is_build,
            r is Err ==> !final(self).is_build,
            r is Err ==> r->Err_0 is CommandConvertError,
    {
        if self.is_build {
            return Ok(());
        }
        self.map = Vec::new();
        self.idx = Ghost(Map::empty());
        let mut cur: usize = 0;
        proof {
            assert(points_to_sets(self.log@, self.idx@));
        }
        while cur < self.log.len()
            invariant
                !self.is_build,
                self.count_of_set <= COMPACTION_THRESHOLD,
                self.log@ == old(self).log@,
                self.count_of_set == old(self).count_of_set,
                cur <= self.log@.len(),
                cur == 0 || self.log@[cur - 1] == NEWLINE,
                replay_from(self.log@, cur as int, self.idx@) == log_index(self.log@),
                points_to_sets(self.log@, self.idx@),
                index_matches(self.map@, self.idx@),
            decreases self.log@.len() - cur,
        {
            let end = find_line_end(&self.log, cur);
            proof {
                lemma_line_end_bounds(self.log@, cur as int);
            }
            if end >= self.log.len() {
                return Err(
                    KvStoreError::CommandConvertError {
                        msg: String::from_str("record without its newline"),
                    },
                );
            }
            let text = copy_range(&self.log, cur, end);
            match decode_record(&text) {
                Err(msg) => {
                    return Err(KvStoreError::CommandConvertError { msg });
                },
                Ok((key, value)) => {
                    let ghost r = (key@, crate::codec::opt_view(value));
                    let ghost old_idx = self.idx@;
                    match value {
                        Some(_) => {
                            index_insert(&mut self.map, key, cur as u64, self.idx);
                            self.idx = Ghost(self.idx@.insert(r.0, cur as int));
                        },
                        None => {
                            index_remove(&mut self.map, &key, self.idx);
                            self.idx = Ghost(self.idx@.remove(r.0));
                        },
                    }
                    proof {
                        assert(self.idx@ == crate::replay::apply(old_idx, r, cur as int));
                        assert forall|k: Seq<char>| #[trigger] self.idx@.contains_key(k) implies set_record_at(
                            self.log@,
                            self.idx@[k],
                            k,
                        ) by {
                            if k != r.0 {
                                assert(old_idx.contains_key(k));
                            }
                        }
                    }
                },
            }
            cur = end + 1;
        }
        self.is_build = true;
        Ok(())
    }

    /// Reads the `Set` record at `off` and returns its value.
    fn fetch_value(&self, off: u64) -> (r: Result<String, KvStoreError>)
        requires
            off <= self.log@.len(),
        ensures
            ron_decoded(line_at(self.log@, off as int)) is None ==> r matches Err(
                KvStoreError::CommandConvertError { .. },
            ),
            (ron_decoded(line_at(self.log@, off as int)) matches Some((_, None))) ==> r matches Err(
                KvStoreError::UnknownError { .. },
            ),
            (ron_decoded(line_at(self.log@, off as int)) matches Some((_, Some(_)))) ==> r is Ok,
            r is Ok ==> r->Ok_0@ == value_at(self.log@, off as int),
    {
        proof {
            lemma_line_end_bounds(self.log@, off as int);
        }
        let n = self.log.len();
        assert(off <= n);
        let start = off as usize;
        let end = find_line_end(&self.log, start);
        let text = copy_range(&self.log, start, end);
        match decode_record(&text) {
            Err(msg) => Err(KvStoreError::CommandConvertError { msg }),
            Ok((_, Some(value))) => Ok(value),
            Ok((_, None)) => Err(
                KvStoreError::UnknownError { msg: String::from_str("Command info not matched") },
            ),
        }
    }

    /// The value of `key`, or `None` where the store does not hold it.
    pub fn get(&mut self, key: String) -> (r: Result<Option<String>, KvStoreError>)
        requires
            old(self).wf(),
        ensures
            final(self).wf(),
            final(self).log_bytes() == old(self).log_bytes(),
            final(self).set_count() == old(self).set_count(),
            r is Ok <==> old(self).state() is Some,
            r is Ok ==> final(self).built() && opt_view(r->Ok_0) == lookup(
                old(self).state().unwrap(),
                key@,
            ),
            r is Err ==> !final(self).built(),
            r is Err ==> r->Err_0 is CommandConvertError,
    {
        self.build_map()?;
        match index_find(&self.map, &key) {
            Some(i) => {
                let off = self.map[i].1;
                proof {
                    assert(self.idx@.contains_key(self.map@[i as int].0@));
                    lemma_line_end_bounds(self.log@, off as int);
                }
                let value = self.fetch_value(off);
                match value {
                    Ok(v) => Ok(Some(v)),
                    Err(e) => Err(e),
                }
            },
            None => {
                proof {
                    if self.idx@.contains_key(key@) {
                        let j = choose|j: int| 0 <= j < self.map@.len() && self.map@[j].0@ == key@;
                    }
                }
                Ok(None)
            },
        }
    }

    /// Appends one record and its newline to the log; returns those bytes.
    fn append_record(&mut self, rec: Vec<u8>) -> (out: Vec<u8>)
        ensures
            final(self).log@ == old(self).log@ + rec@.push(NEWLINE),
            out@ == rec@.push(NEWLINE),
            final(self).map == old(self).map,
            final(self).idx == old(self).idx,
            final(self).is_build == old(self).is_build,
            final(self).count_of_set == old(self).count_of_set,
    {
        let mut line = rec;
        line.push(NEWLINE);
        let out = line.clone();
        assert(out@ =~= line@);
        self.log.append(&mut line);
        out
    }

    /// Removes `key`, appending a `Remove` record to the log.
    pub fn remove(&mut self, key: String) -> (r: Result<LogWrite, KvStoreError>)
        requires
            old(self).wf(),
        ensures
            final(self).wf(),
            final(self).set_count() == old(self).set_count(),
            old(self).state() is None ==> r is Err && r->Err_0 is CommandConvertError
                && !final(self).built(),
            (old(self).state() matches Some(m) && !m.contains_key(key@)) ==> (r matches Err(
                KvStoreError::KeyNotFound { key: k },
            ) && k@ == key@),
            (old(self).state() matches Some(m) && m.contains_key(key@)) ==> r is Ok,
            r is Ok ==> final(self).state() == Some(old(self).state().unwrap().remove(key@))
                && final(self).built(),
            r matches Ok(w) ==> (w matches LogWrite::Append(b) && b@ == ron_record(key@, None).push(
                NEWLINE,
            ) && final(self).log_bytes() == old(self).log_bytes() + b@),
            r is Err ==> final(self).log_bytes() == old(self).log_bytes(),
            (r matches Err(KvStoreError::KeyNotFound { .. })) ==> (old(self).state() matches Some(m)
                && !m.contains_key(key@)) && final(self).built(),
            r is Err ==> r->Err_0 is CommandConvertError || r->Err_0 is KeyNotFound,
            encoder_written(old(self).log_bytes()) ==> encoder_written(final(self).log_bytes()),
    {
        self.build_map()?;
        if index_find(&self.map, &key).is_none() {
            proof {
                if self.idx@.contains_key(key@) {
                    let j = choose|j: int| 0 <= j < self.map@.len() && self.map@[j].0@ == key@;
                }
            }
            return Err(KvStoreError::KeyNotFound { key });
        }
        let rec = encode_record(&key, &None);
        let ghost log0 = self.log@;
        let ghost idx0 = self.idx@;
        let ghost rec0 = rec@;
        let out = self.append_record(rec);
        index_remove(&mut self.map, &key, self.idx);
        self.idx = Ghost(idx0.remove(key@));
        proof {
            lemma_append_remove(log0, rec0, key@);
            lemma_log_index_facts(self.log@);
            if encoder_written(log0) {
                lemma_append_remove_written(log0, rec0, key@);
            }
        }
        Ok(LogWrite::Append(out))
    }

    /// Rewrites the log to hold one `Set` record for each live key, and
    /// marks the index as to be rebuilt.
    fn compaction(&mut self)
        requires
            old(self).wf(),
            old(self).is_build,
        ensures
            final(self).wf(),
            !final(self).is_build,
            final(self).count_of_set == old(self).count_of_set,
            final(self).log@ == compacted(old(self).log@, old(self).map@),
            log_state(final(self).log@) == log_state(old(self).log@),
            encoder_written(old(self).log@) ==> final(self).log@.len() <= old(self).log@.len(),
            encoder_written(final(self).log@),
    {
        let mut buf: Vec<u8> = Vec::new();
        let ghost mut nidx: Map<Seq<char>, int> = Map::empty();
        let mut i: usize = 0;
        proof {
            assert(buf@ =~= compacted(self.log@, self.map@.subrange(0, 0)));
            lemma_empty_written();
        }
        while i < self.map.len()
            invariant
                self.wf(),
                self.is_build,
                self.log@ == old(self).log@,
                self.map@ == old(self).map@,
                self.count_of_set == old(self).count_of_set,
                i <= self.map@.len(),
                buf@ == compacted(self.log@, self.map@.subrange(0, i as int)),
                encoder_written(buf@),
                framed(buf@),
                log_index(buf@) == Some(nidx),
                points_to_sets(buf@, nidx),
                forall|j: int| 0 <= j < i ==> nidx.contains_key(#[trigger] self.map@[j].0@),
                forall|k: Seq<char>| #[trigger]
                    nidx.contains_key(k) ==> self.idx@.contains_key(k) && value_at(buf@, nidx[k])
                        == value_at(self.log@, self.idx@[k]),
            decreases self.map@.len() - i,
        {
            let key = self.map[i].0.clone();
            let off = self.map[i].1;
            proof {
                assert(self.idx@.contains_key(self.map@[i as int].0@));
                lemma_line_end_bounds(self.log@, off as int);
            }
            let value = match self.fetch_value(off) {
                Ok(v) => v,
                Err(_) => String::new(),  // unreachable: the index points at `Set` records
            };
            let ghost v = value@;
            let rec = encode_record(&key, &Some(value));
            let ghost buf0 = buf@;
            let ghost rec0 = rec@;
            let mut line = rec;
            line.push(NEWLINE);
            buf.append(&mut line);
            proof {
                let k = key@;
                lemma_append_set(buf0, rec0, k, v);
                lemma_append_set_written(buf0, rec0, k, v);
                lemma_log_index_facts(buf@);
                lemma_points_stable(buf0, rec0.push(NEWLINE), nidx);
                lemma_appended_line(buf0, rec0);
                let at = buf0.len() as int;
                assert(buf@ == buf0 + rec0.push(NEWLINE));
                assert(self.map@.subrange(0, i + 1).drop_last() =~= self.map@.subrange(0, i as int));
                let n2 = nidx.insert(k, at);
                assert forall|kk: Seq<char>| #[trigger]
                    n2.contains_key(kk) implies self.idx@.contains_key(kk) && value_at(buf@, n2[kk])
                    == value_at(self.log@, self.idx@[kk]) by {
                    if kk != k {
                        assert(nidx.contains_key(kk));
                        assert(index_state(buf@, nidx)[kk] == index_state(buf0, nidx)[kk]);
                    }
                }
                nidx = n2;
            }
            i = i + 1;
        }
        proof {
            assert(self.map@.subrange(0, i as int) =~= self.map@);
            assert(index_state(buf@, nidx) =~= index_state(self.log@, self.idx@)) by {
                assert forall|k: Seq<char>| self.idx@.contains_key(k) implies nidx.contains_key(k) by {
                    let j = choose|j: int| 0 <= j < self.map@.len() && self.map@[j].0@ == k;
                }
            }
        }
        proof {
            if encoder_written(self.log@) {
                lemma_replay_starts(self.log@, 0, Map::empty());
                lemma_covered(self.log@, self.map@, self.idx@);
                lemma_int_range(0, self.log@.len() as int);
                lemma_len_subset(covered(self.log@, self.map@), set_int_range(0, self.log@.len() as int));
            }
        }
        self.log = buf;
        self.is_build = false;
    }

    /// Maps `key` to `value`, appending a `Set` record to the log. The set
    /// that brings the count past `COMPACTION_THRESHOLD` since opening or since
    /// the last compaction first replays the log, then compacts it, and hands
    /// back the whole new content; the count starts again.
    pub fn set(&mut self, key: String, value: String) -> (r: Result<LogWrite, KvStoreError>)
        requires
            old(self).wf(),
        ensures
            final(self).wf(),
            old(self).set_count() < COMPACTION_THRESHOLD ==> r is Ok,
            old(self).set_count() == COMPACTION_THRESHOLD ==> (r is Ok <==> old(self).state() is Some),
            r is Ok && old(self).state() is Some ==> final(self).state() == Some(
                old(self).state().unwrap().insert(key@, value@),
            ),
            r is Ok && old(self).set_count() < COMPACTION_THRESHOLD ==> (r->Ok_0 matches LogWrite::Append(b)
                && b@ == ron_record(key@, Some(value@)).push(NEWLINE) && final(self).log_bytes()
                == old(self).log_bytes() + b@ && final(self).set_count() == old(self).set_count()
                + 1 && final(self).built() == old(self).built()),
            r is Ok && old(self).set_count() == COMPACTION_THRESHOLD ==> (r->Ok_0 matches LogWrite::Rewrite(b)
                && final(self).log_bytes() == b@ && final(self).set_count() == 0
                && !final(self).built()),
            r is Err ==> final(self).log_bytes() == old(self).log_bytes() && final(self).set_count()
                == old(self).set_count() && !final(self).built(),
            r is Err ==> r->Err_0 is CommandConvertError,
            encoder_written(old(self).log_bytes()) ==> encoder_written(final(self).log_bytes()),
            r is Ok && old(self).set_count() == COMPACTION_THRESHOLD && encoder_written(
                old(self).log_bytes(),
            ) ==> final(self).log_bytes().len() <= old(self).log_bytes().len() + ron_record(
                key@,
                Some(value@),
            ).len() + 1,
    {
        let compact = self.count_of_set >= COMPACTION_THRESHOLD;
        if compact {
            self.build_map()?;
        }
        let rec = encode_record(&key, &Some(value));
        let ghost log0 = self.log@;
        let ghost idx0 = self.idx@;
        let ghost rec0 = rec@;
        let off = self.log.len() as u64;
        let out = self.append_record(rec);
        proof {
            if log_index(log0) is Some {
                lemma_append_set(log0, rec0, key@, value@);
                lemma_log_index_facts(self.log@);
            }
            if encoder_written(log0) {
                lemma_append_set_written(log0, rec0, key@, value@);
            }
        }
        if self.is_build {
            let ghost k = key@;
            index_insert(&mut self.map, key, off, self.idx);
            self.idx = Ghost(idx0.insert(k, off as int));
        }
        if !compact {
            self.count_of_set = self.count_of_set + 1;
            Ok(LogWrite::Append(out))
        } else {
            self.count_of_set = 0;
            self.compaction();
            let content = self.log.clone();
            assert(content@ =~= self.log@);
            Ok(LogWrite::Rewrite(content))
        }
    }
}

} // verus!
