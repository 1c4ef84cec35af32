//! The storage engine: the offset index, the engine operations, and the
//! compaction procedure.

use crate::assoc::{
    distinct_keys, has_key, lemma_assoc_delete_absent, lemma_assoc_delete_at,
    lemma_assoc_map_delete, lemma_assoc_map_has_key, lemma_assoc_map_update,
    lemma_assoc_update_at, lemma_assoc_val, Pair,
};
use crate::codec::{
    decode_record_at, lemma_dec_of_enc_rec, lemma_enc_of_dec_rec, lemma_enc_recs_push,
    lemma_fits_of_enc_len, lemma_subrange_of_extend, lemma_suffix_of_extend,
};
use crate::error::KvsError;
use crate::record::{all_fit, spec_dec_rec, spec_enc_rec, spec_enc_recs, Record, RecordModel};
use crate::replay::{
    after_write, compacted, lemma_compact_preserves, lemma_replay_distinct, lemma_replay_push,
    rec_of_pair, replay, state_map,
};
use crate::wal::WAL;
use vstd::prelude::*;

verus! {

/// One index entry: a key and the byte range in the log of the most recent
/// `Set` record that binds it.
pub struct IndexEntry {
    /// The key this entry indexes.
    pub key: String,
    /// Byte offset where the record starts.
    pub start: usize,
    /// Byte offset just past the record.
    pub end: usize,
}

/// The storage engine: the in-memory index, the log, and the write cursor.
pub struct KvStore {
    /// The in-memory index, one entry per live key.
    pub index: Vec<IndexEntry>,
    /// The append-only log of every record written since the last
    /// compaction rewrote it.
    pub wal: WAL,
    /// The engine's write cursor: the log's length in bytes.
    pub final_offset: usize,
}

/// Finds the position of `key` in the index.
fn find_index(index: &Vec<IndexEntry>, key: &String) -> (r: Option<usize>)
    ensures
        r matches Some(i) ==> i < index@.len() && index@[i as int].key@ == key@,
        r is None ==> forall|i: int| 0 <= i < index@.len() ==> index@[i].key@ != key@,
{
    let mut i: usize = 0;
    while i < index.len()
        invariant
            i <= index@.len(),
            forall|j: int| 0 <= j < i ==> index@[j].key@ != key@,
        decreases index@.len() - i,
    {
        if index[i].key == *key {
            return Some(i);
        }
        i = i + 1;
    }
    None
}

/// The character-sequence view of a vector of key/value string pairs.
pub open spec fn pairs_view(v: Seq<(String, String)>) -> Seq<Pair> {
    Seq::new(v.len(), |i: int| (v[i].0@, v[i].1@))
}

/// Binds `key` to `value` in the pair list, in place or at the end.
fn pairs_update(pairs: &mut Vec<(String, String)>, key: String, value: String)
    requires
        distinct_keys(pairs_view(old(pairs)@)),
    ensures
        pairs_view(final(pairs)@) == crate::assoc::assoc_update(
            pairs_view(old(pairs)@),
            key@,
            value@,
        ),
{
    let ghost al = pairs_view(pairs@);
    let mut i: usize = 0;
    while i < pairs.len()
        invariant
            i <= pairs@.len(),
            pairs@ == old(pairs)@,
            forall|j: int| 0 <= j < i ==> al[j].0 != key@,
            al == pairs_view(pairs@),
            distinct_keys(al),
        decreases pairs@.len() - i,
    {
        if pairs[i].0 == key {
            proof {
                lemma_assoc_update_at(al, key@, value@, i as int);
            }
            pairs.remove(i);
            pairs.insert(i, (key, value));
            proof {
                assert(pairs_view(pairs@) =~= al.update(i as int, (key@, value@)));
            }
            return ;
        }
        i = i + 1;
    }
    proof {
        assert(!has_key(al, key@));
    }
    pairs.push((key, value));
    proof {
        assert(pairs_view(pairs@) =~= al.push((key@, value@)));
    }
}

/// Unbinds `key` in the pair list; an absent key leaves it unchanged.
fn pairs_delete(pairs: &mut Vec<(String, String)>, key: &String)
    requires
        distinct_keys(pairs_view(old(pairs)@)),
    ensures
        pairs_view(final(pairs)@) == crate::assoc::assoc_delete(pairs_view(old(pairs)@), key@),
{
    let ghost al = pairs_view(pairs@);
    let mut i: usize = 0;
    while i < pairs.len()
        invariant
            i <= pairs@.len(),
            pairs@ == old(pairs)@,
            forall|j: int| 0 <= j < i ==> al[j].0 != key@,
            al == pairs_view(pairs@),
            distinct_keys(al),
        decreases pairs@.len() - i,
    {
        if pairs[i].0 == *key {
            proof {
                lemma_assoc_delete_at(al, key@, i as int);
            }
            pairs.remove(i);
            proof {
                assert(pairs_view(pairs@) =~= al.remove(i as int));
            }
            return ;
        }
        i = i + 1;
    }
    proof {
        assert(!has_key(al, key@));
        lemma_assoc_delete_absent(al, key@);
    }
}

impl KvStore {
    /// The records the log holds, oldest first.
    pub open spec fn records(self) -> Seq<RecordModel> {
        self.wal.records@
    }

    /// The log's bytes.
    pub open spec fn log_bytes(self) -> Seq<u8> {
        self.wal.data@
    }

    /// The observable key/value state: what replaying the log denotes.
    pub open spec fn state(self) -> Map<Seq<char>, Seq<char>> {
        state_map(self.records())
    }

    /// The index lists exactly the surviving bindings, in replay order, and
    /// each entry's byte range holds the `Set` record of its binding.
    pub open spec fn index_ok(self) -> bool {
        let al = replay(self.records());
        &&& self.index@.len() == al.len()
        &&& forall|i: int|
            0 <= i < al.len() ==> {
                let e = #[trigger] self.index@[i];
                &&& e.key@ == al[i].0
                &&& e.start <= e.end <= self.log_bytes().len()
                &&& self.log_bytes().subrange(e.start as int, e.end as int) == spec_enc_rec(
                    RecordModel::Insert { key: al[i].0, value: al[i].1 },
                )
            }
    }

    /// The engine's invariant: a well-formed log, the cursor at its end,
    /// and a coherent index.
    pub open spec fn wf(self) -> bool {
        &&& self.wal.wf()
        &&& self.final_offset == self.log_bytes().len()
        &&& self.index_ok()
    }

    /// An empty store: no records, no bindings.
    pub fn new() -> (s: KvStore)
        ensures
            s.wf(),
            s.records() == Seq::<RecordModel>::empty(),
            s.state() == Map::<Seq<char>, Seq<char>>::empty(),
            s.wal.threshold == 100,
    {
        let s = KvStore { index: Vec::new(), wal: WAL::new(), final_offset: 0 };
        proof {
            assert(s.state() =~= Map::<Seq<char>, Seq<char>>::empty());
        }
        s
    }

    /// Opens a store over the bytes of an existing log: replays the records
    /// in order, rebuilding the index, the write cursor and the record
    /// count. A trailing fragment that decodes to no record is read as an
    /// in-flight write truncated by a crash, and is cut off, not an error.
    pub fn open(log: Vec<u8>) -> (s: KvStore)
        ensures
            s.wf(),
            s.wal.threshold == 100,
            forall|rs: Seq<RecordModel>|
                log@ == spec_enc_recs(rs) && all_fit(rs) ==> s.records() == rs,
            exists|cut: int|
                0 <= cut <= log@.len() && log@.subrange(0, cut) == spec_enc_recs(s.records())
                    && spec_dec_rec(log@, cut) is None,
    {
        let mut log = log;
        let ghost log0 = log@;
        let mut index: Vec<IndexEntry> = Vec::new();
        let mut pos: usize = 0;
        let mut count: usize = 0;
        let mut rs: Ghost<Seq<RecordModel>> = Ghost(Seq::empty());
        proof {
            assert(log0.subrange(0, 0) =~= spec_enc_recs(rs@));
            assert forall|rs2: Seq<RecordModel>|
                log0 == #[trigger] spec_enc_recs(rs2) && all_fit(rs2) implies rs@.len()
                <= rs2.len() && rs@ == rs2.take(rs@.len() as int) by {
                assert(rs2.take(0) =~= Seq::<RecordModel>::empty());
            }
        }
        loop
            invariant
                log@ == log0,
                pos <= log0.len(),
                log0.subrange(0, pos as int) == spec_enc_recs(rs@),
                all_fit(rs@),
                count == rs@.len(),
                index@.len() == replay(rs@).len(),
                forall|m: int|
                    0 <= m < replay(rs@).len() ==> {
                        let e = #[trigger] index@[m];
                        &&& e.key@ == replay(rs@)[m].0
                        &&& e.start <= e.end <= pos
                        &&& log0.subrange(e.start as int, e.end as int) == spec_enc_rec(
                            RecordModel::Insert { key: replay(rs@)[m].0, value: replay(rs@)[m].1 },
                        )
                    },
                forall|rs2: Seq<RecordModel>|
                    log0 == #[trigger] spec_enc_recs(rs2) && all_fit(rs2) ==> rs@.len()
                        <= rs2.len() && rs@ == rs2.take(rs@.len() as int),
            ensures
                spec_dec_rec(log0, pos as int) is None,
            decreases log0.len() - pos,
        {
            let ghost rs_old = rs@;
            let ghost al_old = replay(rs_old);
            match decode_record_at(&log, pos) {
                Some((rec, next)) => {
                    proof {
                        lemma_enc_of_dec_rec(log0, pos as int);
                        lemma_enc_recs_push(rs_old, rec@);
                        lemma_replay_distinct(rs_old);
                        lemma_replay_push(rs_old, rec@);
                        crate::codec::lemma_enc_recs_len_ge(rs_old);
                        assert(log0.subrange(0, next as int) =~= log0.subrange(0, pos as int)
                            + log0.subrange(pos as int, next as int));
                    }
                    let start = pos;
                    let end = next;
                    match rec {
                        Record::Insert { key, value } => {
                            proof {
                                lemma_assoc_map_update(al_old, key@, value@);
                            }
                            match find_index(&index, &key) {
                                Some(i) => {
                                    let ghost idx0 = index@;
                                    proof {
                                        assert(idx0[i as int].key@ == al_old[i as int].0);
                                        lemma_assoc_update_at(al_old, key@, value@, i as int);
                                    }
                                    let entry = IndexEntry { key, start, end };
                                    index.remove(i);
                                    index.insert(i, entry);
                                    proof {
                                        assert(index@ =~= idx0.update(i as int, entry));
                                    }
                                },
                                None => {
                                    proof {
                                        assert forall|t: int|
                                            0 <= t < al_old.len() implies al_old[t].0 != key@ by {
                                            assert(index@[t].key@ == al_old[t].0);
                                        }
                                        assert(!has_key(al_old, key@));
                                    }
                                    index.push(IndexEntry { key, start, end });
                                },
                            }
                        },
                        Record::Remove { key } => {
                            proof {
                                lemma_assoc_map_delete(al_old, key@);
                            }
                            match find_index(&index, &key) {
                                Some(i) => {
                                    let ghost idx0 = index@;
                                    proof {
                                        assert(idx0[i as int].key@ == al_old[i as int].0);
                                        lemma_assoc_delete_at(al_old, key@, i as int);
                                    }
                                    index.remove(i);
                                },
                                None => {
                                    proof {
                                        assert forall|t: int|
                                            0 <= t < al_old.len() implies al_old[t].0 != key@ by {
                                            assert(index@[t].key@ == al_old[t].0);
                                        }
                                        assert(!has_key(al_old, key@));
                                        lemma_assoc_delete_absent(al_old, key@);
                                    }
                                },
                            }
                        },
                    }
                    count = count + 1;
                    pos = next;
                    proof {
                        rs@ = rs_old.push(rec@);
                        assert forall|rs2: Seq<RecordModel>|
                            log0 == #[trigger] spec_enc_recs(rs2) && all_fit(rs2) implies rs@.len()
                            <= rs2.len() && rs@ == rs2.take(rs@.len() as int) by {
                            let k = rs_old.len() as int;
                            if k == rs2.len() {
                                assert(rs2.take(k) =~= rs2);
                                assert(spec_enc_recs(rs_old) == log0);
                            } else {
                                crate::codec::lemma_enc_recs_at(rs2, k);
                                assert(crate::codec::rec_offset(rs2, k) == spec_enc_recs(
                                    rs2.take(k),
                                ).len());
                                lemma_dec_of_enc_rec(log0, start as int, rs2[k]);
                                assert(rs2.take(k).push(rs2[k]) =~= rs2.take(k + 1));
                            }
                        }
                    }
                },
                None => {
                    break ;
                },
            }
        }
        log.truncate(pos);
        let s = KvStore {
            index,
            wal: WAL { data: log, size: count, threshold: 100, records: rs },
            final_offset: pos,
        };
        proof {
            assert(s.wal.data@ == log0.subrange(0, pos as int));
            assert forall|m: int| 0 <= m < replay(rs@).len() implies {
                let e = #[trigger] s.index@[m];
                &&& e.key@ == replay(rs@)[m].0
                &&& e.start <= e.end <= s.log_bytes().len()
                &&& s.log_bytes().subrange(e.start as int, e.end as int) == spec_enc_rec(
                    RecordModel::Insert { key: replay(rs@)[m].0, value: replay(rs@)[m].1 },
                )
            } by {
                let e = s.index@[m];
                assert(s.log_bytes().subrange(e.start as int, e.end as int) =~= log0.subrange(
                    e.start as int,
                    e.end as int,
                ));
            }
            assert(s.index_ok());
            assert forall|rs2: Seq<RecordModel>|
                log0 == #[trigger] spec_enc_recs(rs2) && all_fit(rs2) implies s.records()
                == rs2 by {
                let k = rs@.len() as int;
                if k < rs2.len() {
                    crate::codec::lemma_enc_recs_at(rs2, k);
                    lemma_dec_of_enc_rec(log0, pos as int, rs2[k]);
                }
                assert(rs2.take(rs2.len() as int) =~= rs2);
            }
            assert(log0.subrange(0, pos as int) == spec_enc_recs(s.records())
                && spec_dec_rec(log0, pos as int) is None);
        }
        s
    }

    /// Persistence round trip: the log alone determines a store's records
    /// and observable state, so any two well-formed stores over the same
    /// bytes — in particular a store and its reopening after a clean
    /// shutdown — agree on every key.
    pub proof fn lemma_log_determines_state(a: KvStore, b: KvStore)
        requires
            a.wf(),
            b.wf(),
            a.log_bytes() == b.log_bytes(),
        ensures
            a.records() == b.records(),
            a.state() == b.state(),
    {
        crate::codec::lemma_log_determines_records(a.records(), b.records());
    }

    /// Gets the value of `key`: the one bound by the most recent surviving
    /// `Set`, or nothing when the store does not hold the key.
    pub fn get(&self, key: String) -> (r: Result<Option<String>, KvsError>)
        requires
            self.wf(),
        ensures
            r is Ok,
            r matches Ok(Some(v)) ==> self.state().contains_key(key@) && v@ == self.state().index(
                key@,
            ),
            r matches Ok(None) ==> !self.state().contains_key(key@),
    {
        let ghost al = replay(self.records());
        proof {
            lemma_replay_distinct(self.records());
            lemma_assoc_map_has_key(al, key@);
        }
        match find_index(&self.index, &key) {
            None => {
                proof {
                    assert forall|i: int| 0 <= i < al.len() implies al[i].0 != key@ by {
                        assert(self.index@[i].key@ == al[i].0);
                    }
                }
                Ok(None)
            },
            Some(i) => {
                let start = self.index[i].start;
                let end = self.index[i].end;
                let ghost rm = RecordModel::Insert { key: al[i as int].0, value: al[i as int].1 };
                proof {
                    lemma_assoc_val(al, i as int);
                    assert(spec_enc_rec(rm).len() == end - start);
                    lemma_fits_of_enc_len(rm);
                    lemma_dec_of_enc_rec(self.log_bytes(), start as int, rm);
                }
                match self.wal.read_one(start, end) {
                    Ok(rec) => match rec {
                        Record::Insert { key: _, value } => Ok(Some(value)),
                        Record::Remove { .. } => {
                            proof {
                                assert(false);
                            }
                            Err(KvsError::Unknown)
                        },
                    },
                    Err(_) => {
                        proof {
                            assert(false);
                        }
                        Err(KvsError::Unknown)
                    },
                }
            },
        }
    }

    /// Binds `key` to `value`: appends a `Set` record, indexes its byte
    /// range, then compacts when the write pushed the record count past the
    /// threshold.
    pub fn set(&mut self, key: String, value: String) -> (r: Result<(), KvsError>)
        requires
            old(self).wf(),
        ensures
            final(self).wf(),
            r is Ok,
            final(self).state() == old(self).state().insert(key@, value@),
            final(self).records() == after_write(
                old(self).records().push(RecordModel::Insert { key: key@, value: value@ }),
                old(self).wal.threshold as int,
            ),
            final(self).wal.threshold == old(self).wal.threshold,
    {
        let ghost rs0 = self.records();
        let ghost al = replay(rs0);
        let ghost data0 = self.wal.data@;
        proof {
            lemma_replay_distinct(rs0);
        }
        let start = self.wal.byte_len();
        let found = find_index(&self.index, &key);
        let rec = Record::Insert { key: key.clone(), value };
        let _n = self.wal.append(&rec);
        let end = self.wal.byte_len();
        self.final_offset = end;
        let ghost rs1 = rs0.push(rec@);
        let ghost al1 = replay(rs1);
        let ghost enc = spec_enc_rec(rec@);
        proof {
            lemma_replay_push(rs0, rec@);
            lemma_assoc_map_update(al, key@, value@);
            crate::replay::lemma_state_insert(rs0, key@, value@);
            lemma_suffix_of_extend(data0, enc);
        }
        let entry = IndexEntry { key, start, end };
        match found {
            Some(i) => {
                proof {
                    assert(old(self).index@[i as int].key@ == al[i as int].0);
                    lemma_assoc_update_at(al, key@, value@, i as int);
                }
                self.index.remove(i);
                self.index.insert(i, entry);
                proof {
                    assert(self.index@ =~= old(self).index@.update(i as int, entry));
                }
            },
            None => {
                proof {
                    assert forall|t: int| 0 <= t < al.len() implies al[t].0 != key@ by {
                        assert(old(self).index@[t].key@ == al[t].0);
                    }
                    assert(!has_key(al, key@));
                }
                self.index.push(entry);
            },
        }
        proof {
            assert forall|m: int| 0 <= m < al1.len() implies {
                let e = #[trigger] self.index@[m];
                &&& e.key@ == al1[m].0
                &&& e.start <= e.end <= self.wal.data@.len()
                &&& self.wal.data@.subrange(e.start as int, e.end as int) == spec_enc_rec(
                    RecordModel::Insert { key: al1[m].0, value: al1[m].1 },
                )
            } by {
                if m < al.len() && self.index@[m] == old(self).index@[m] && al1[m] == al[m] {
                    lemma_subrange_of_extend(
                        data0,
                        enc,
                        old(self).index@[m].start as int,
                        old(self).index@[m].end as int,
                    );
                }
            }
            assert(self.index_ok());
        }
        if self.wal.exceeds() {
            match self.compact() {
                Ok(_) => {},
                Err(e) => {
                    proof {
                        assert(false);
                    }
                    return Err(e);
                },
            }
        }
        Ok(())
    }

    /// Unbinds `key`: appends a `Remove` record and drops the index entry,
    /// then compacts when the write pushed the record count past the
    /// threshold. A key the store does not hold is refused, and nothing
    /// changes.
    pub fn remove(&mut self, key: String) -> (r: Result<(), KvsError>)
        requires
            old(self).wf(),
        ensures
            final(self).wf(),
            old(self).state().contains_key(key@) ==> r is Ok && final(self).state() == old(
                self,
            ).state().remove(key@) && final(self).records() == after_write(
                old(self).records().push(RecordModel::Remove { key: key@ }),
                old(self).wal.threshold as int,
            ),
            !old(self).state().contains_key(key@) ==> r == Err::<(), KvsError>(
                KvsError::KeyNotFound,
            ) && *final(self) == *old(self),
            final(self).wal.threshold == old(self).wal.threshold,
    {
        let ghost rs0 = self.records();
        let ghost al = replay(rs0);
        let ghost data0 = self.wal.data@;
        proof {
            lemma_replay_distinct(rs0);
            lemma_assoc_map_has_key(al, key@);
        }
        match find_index(&self.index, &key) {
            None => {
                proof {
                    assert forall|t: int| 0 <= t < al.len() implies al[t].0 != key@ by {
                        assert(self.index@[t].key@ == al[t].0);
                    }
                }
                Err(KvsError::KeyNotFound)
            },
            Some(i) => {
                proof {
                    assert(self.index@[i as int].key@ == al[i as int].0);
                    assert(has_key(al, key@));
                    lemma_assoc_delete_at(al, key@, i as int);
                }
                let rec = Record::Remove { key };
                let _n = self.wal.append(&rec);
                self.final_offset = self.wal.byte_len();
                self.index.remove(i);
                let ghost rs1 = rs0.push(rec@);
                let ghost al1 = replay(rs1);
                let ghost enc = spec_enc_rec(rec@);
                proof {
                    lemma_replay_push(rs0, rec@);
                    crate::replay::lemma_state_remove(rs0, rec@->Remove_key);
                    assert(al1 == al.remove(i as int));
                    assert forall|m: int| 0 <= m < al1.len() implies {
                        let e = #[trigger] self.index@[m];
                        &&& e.key@ == al1[m].0
                        &&& e.start <= e.end <= self.wal.data@.len()
                        &&& self.wal.data@.subrange(e.start as int, e.end as int) == spec_enc_rec(
                            RecordModel::Insert { key: al1[m].0, value: al1[m].1 },
                        )
                    } by {
                        let mm = if m < i as int {
                            m
                        } else {
                            m + 1
                        };
                        assert(self.index@[m] == old(self).index@[mm]);
                        assert(al1[m] == al[mm]);
                        lemma_subrange_of_extend(
                            data0,
                            enc,
                            old(self).index@[mm].start as int,
                            old(self).index@[mm].end as int,
                        );
                    }
                    assert(self.index_ok());
                }
                if self.wal.exceeds() {
                    match self.compact() {
                        Ok(_) => {},
                        Err(e) => {
                            proof {
                                assert(false);
                            }
                            return Err(e);
                        },
                    }
                }
                Ok(())
            },
        }
    }

    /// Replays the log into its surviving bindings, rewrites it as one `Set`
    /// record per binding, rebuilds the index against the new byte layout,
    /// and resets the record count to what survived. The observable state is
    /// unchanged.
    pub fn compact(&mut self) -> (r: Result<(), KvsError>)
        requires
            old(self).wf(),
        ensures
            final(self).wf(),
            r is Ok,
            final(self).records() == compacted(old(self).records()),
            final(self).state() == old(self).state(),
            final(self).wal.size == final(self).records().len(),
            final(self).wal.threshold == old(self).wal.threshold,
    {
        let ghost rs0 = self.records();
        let ghost al = replay(rs0);
        proof {
            lemma_replay_distinct(rs0);
            lemma_compact_preserves(rs0);
        }
        // Collapse the whole log into the surviving key/value bindings.
        let commands = self.wal.stream();
        let mut pairs: Vec<(String, String)> = Vec::new();
        let mut i: usize = 0;
        while i < commands.len()
            invariant
                i <= commands@.len(),
                commands@.len() == rs0.len(),
                forall|j: int| 0 <= j < commands@.len() ==> #[trigger] commands@[j]@ == rs0[j],
                pairs_view(pairs@) == replay(rs0.take(i as int)),
            decreases commands@.len() - i,
        {
            proof {
                lemma_replay_distinct(rs0.take(i as int));
                assert(rs0.take(i as int).push(rs0[i as int]) =~= rs0.take(i as int + 1));
                lemma_replay_push(rs0.take(i as int), rs0[i as int]);
            }
            let c = &commands[i];
            proof {
                assert(commands@[i as int]@ == rs0[i as int]);
            }
            match c {
                Record::Insert { key, value } => {
                    pairs_update(&mut pairs, key.clone(), value.clone());
                },
                Record::Remove { key } => {
                    pairs_delete(&mut pairs, key);
                },
            }
            i = i + 1;
        }
        proof {
            assert(rs0.take(rs0.len() as int) =~= rs0);
            assert(pairs_view(pairs@) == al);
        }
        // Rewrite: clear the log and append one record per surviving
        // binding, indexing each as it lands.
        self.wal.clear();
        self.index.clear();
        let ghost target = compacted(rs0);
        proof {
            assert(target.take(0) =~= Seq::<RecordModel>::empty());
        }
        let mut j: usize = 0;
        while j < pairs.len()
            invariant
                j <= pairs@.len(),
                pairs_view(pairs@) == al,
                distinct_keys(al),
                target == al.map_values(|p: Pair| rec_of_pair(p)),
                self.wal.wf(),
                self.wal.records@ == target.take(j as int),
                self.wal.threshold == old(self).wal.threshold,
                self.index@.len() == j,
                forall|m: int|
                    0 <= m < j ==> {
                        let e = #[trigger] self.index@[m];
                        &&& e.key@ == al[m].0
                        &&& e.start <= e.end <= self.wal.data@.len()
                        &&& self.wal.data@.subrange(e.start as int, e.end as int) == spec_enc_rec(
                            rec_of_pair(al[m]),
                        )
                    },
            decreases pairs@.len() - j,
        {
            let ghost dataj = self.wal.data@;
            let start = self.wal.byte_len();
            let rec = Record::Insert { key: pairs[j].0.clone(), value: pairs[j].1.clone() };
            proof {
                assert(al[j as int] == (pairs@[j as int].0@, pairs@[j as int].1@));
                assert(rec@ == rec_of_pair(al[j as int]));
                assert(target[j as int] == rec_of_pair(al[j as int]));
                assert(target.take(j as int).push(target[j as int]) =~= target.take(
                    j as int + 1,
                ));
            }
            let _n = self.wal.append(&rec);
            let end = self.wal.byte_len();
            let entry = IndexEntry { key: pairs[j].0.clone(), start, end };
            proof {
                lemma_suffix_of_extend(dataj, spec_enc_rec(rec@));
                assert forall|m: int| 0 <= m < j implies {
                    let e = #[trigger] self.index@[m];
                    &&& e.key@ == al[m].0
                    &&& e.start <= e.end <= self.wal.data@.len()
                    &&& self.wal.data@.subrange(e.start as int, e.end as int) == spec_enc_rec(
                        rec_of_pair(al[m]),
                    )
                } by {
                    lemma_subrange_of_extend(
                        dataj,
                        spec_enc_rec(rec@),
                        self.index@[m].start as int,
                        self.index@[m].end as int,
                    );
                }
            }
            self.index.push(entry);
            j = j + 1;
        }
        self.final_offset = self.wal.byte_len();
        proof {
            assert(target.take(pairs@.len() as int) =~= target);
            assert(replay(self.wal.records@) == al);
            assert forall|m: int| 0 <= m < al.len() implies {
                let e = #[trigger] self.index@[m];
                &&& e.key@ == al[m].0
                &&& e.start <= e.end <= self.log_bytes().len()
                &&& self.log_bytes().subrange(e.start as int, e.end as int) == spec_enc_rec(
                    RecordModel::Insert { key: al[m].0, value: al[m].1 },
                )
            } by {
                assert(rec_of_pair(al[m]) == RecordModel::Insert { key: al[m].0, value: al[m].1 });
            }
            assert(self.index_ok());
        }
        Ok(())
    }
}

} // verus!
