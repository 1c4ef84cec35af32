//! Replay semantics: what a sequence of log records means, and what
//! compaction does to it.

use crate::assoc::{
    assoc_delete, assoc_map, assoc_update, distinct_keys, has_key, lemma_assoc_map_delete,
    lemma_assoc_map_update, Pair,
};
use crate::record::RecordModel;
use vstd::prelude::*;

verus! {

/// One record applied to an association list.
pub open spec fn apply_record(al: Seq<Pair>, r: RecordModel) -> Seq<Pair> {
    match r {
        RecordModel::Insert { key, value } => assoc_update(al, key, value),
        RecordModel::Remove { key } => assoc_delete(al, key),
    }
}

/// The association list a whole log denotes: every record applied in order
/// to the empty list.
pub open spec fn replay(rs: Seq<RecordModel>) -> Seq<Pair>
    decreases rs.len(),
{
    if rs.len() == 0 {
        Seq::<Pair>::empty()
    } else {
        apply_record(replay(rs.drop_last()), rs.last())
    }
}

/// The observable state a log denotes: the map of surviving bindings.
pub open spec fn state_map(rs: Seq<RecordModel>) -> Map<Seq<char>, Seq<char>> {
    assoc_map(replay(rs))
}

/// An entry of the surviving association list, read back as a record.
pub open spec fn rec_of_pair(p: Pair) -> RecordModel {
    RecordModel::Insert { key: p.0, value: p.1 }
}

/// The log compaction writes: one `Insert` record per surviving binding, in
/// the order the replay keeps them.
pub open spec fn compacted(rs: Seq<RecordModel>) -> Seq<RecordModel> {
    replay(rs).map_values(|p: Pair| rec_of_pair(p))
}

/// A replayed log always has distinct keys.
pub proof fn lemma_replay_distinct(rs: Seq<RecordModel>)
    ensures
        distinct_keys(replay(rs)),
    decreases rs.len(),
{
    if rs.len() == 0 {
    } else {
        lemma_replay_distinct(rs.drop_last());
        match rs.last() {
            RecordModel::Insert { key, value } => {
                lemma_assoc_map_update(replay(rs.drop_last()), key, value);
            },
            RecordModel::Remove { key } => {
                lemma_assoc_map_delete(replay(rs.drop_last()), key);
            },
        }
    }
}

/// Appending one record applies it to the replayed list.
pub proof fn lemma_replay_push(rs: Seq<RecordModel>, r: RecordModel)
    ensures
        replay(rs.push(r)) == apply_record(replay(rs), r),
{
    assert(rs.push(r).drop_last() =~= rs);
}

/// Appending `Insert { key, value }` inserts the binding into the state.
pub proof fn lemma_state_insert(rs: Seq<RecordModel>, key: Seq<char>, value: Seq<char>)
    ensures
        state_map(rs.push(RecordModel::Insert { key, value })) == state_map(rs).insert(
            key,
            value,
        ),
{
    lemma_replay_push(rs, RecordModel::Insert { key, value });
    lemma_replay_distinct(rs);
    lemma_assoc_map_update(replay(rs), key, value);
}

/// Appending `Remove { key }` removes the binding from the state.
pub proof fn lemma_state_remove(rs: Seq<RecordModel>, key: Seq<char>)
    ensures
        state_map(rs.push(RecordModel::Remove { key })) == state_map(rs).remove(key),
{
    lemma_replay_push(rs, RecordModel::Remove { key });
    lemma_replay_distinct(rs);
    lemma_assoc_map_delete(replay(rs), key);
}

/// Replaying a log of `Insert` records with distinct keys reproduces exactly
/// those bindings, in that order.
pub proof fn lemma_replay_of_inserts(al: Seq<Pair>)
    requires
        distinct_keys(al),
    ensures
        replay(al.map_values(|p: Pair| rec_of_pair(p))) == al,
    decreases al.len(),
{
    let ms = al.map_values(|p: Pair| rec_of_pair(p));
    if al.len() == 0 {
        assert(ms =~= Seq::<RecordModel>::empty());
    } else {
        let dl = al.drop_last();
        assert(distinct_keys(dl));
        lemma_replay_of_inserts(dl);
        assert(ms.drop_last() =~= dl.map_values(|p: Pair| rec_of_pair(p)));
        assert(ms.last() == rec_of_pair(al.last()));
        assert forall|i: int| 0 <= i < dl.len() implies dl[i].0 != al.last().0 by {
            assert(al[i].0 != al[al.len() - 1].0);
        }
        assert(!has_key(dl, al.last().0));
        assert(replay(ms) == dl.push(al.last()));
        assert(dl.push(al.last()) =~= al);
    }
}

/// Compaction keeps the replayed list, and with it the observable state.
pub proof fn lemma_compact_preserves(rs: Seq<RecordModel>)
    ensures
        replay(compacted(rs)) == replay(rs),
        state_map(compacted(rs)) == state_map(rs),
{
    lemma_replay_distinct(rs);
    lemma_replay_of_inserts(replay(rs));
}

/// Compacting a second time, with no write in between, rewrites the very
/// same log.
pub proof fn lemma_compact_idempotent(rs: Seq<RecordModel>)
    ensures
        compacted(compacted(rs)) == compacted(rs),
{
    lemma_compact_preserves(rs);
}

/// The value `get` owes for `k` after any interleaving of operations: the
/// value of the most recent `Insert` for `k` not followed by a `Remove` of
/// `k`, and nothing otherwise.
pub open spec fn current_value(rs: Seq<RecordModel>, k: Seq<char>) -> Option<Seq<char>>
    decreases rs.len(),
{
    if rs.len() == 0 {
        None
    } else {
        match rs.last() {
            RecordModel::Insert { key, value } => if key == k {
                Some(value)
            } else {
                current_value(rs.drop_last(), k)
            },
            RecordModel::Remove { key } => if key == k {
                None
            } else {
                current_value(rs.drop_last(), k)
            },
        }
    }
}

/// The state binds each key to exactly the value of its most recent
/// `Insert` not followed by a `Remove`.
pub proof fn lemma_state_is_current(rs: Seq<RecordModel>, k: Seq<char>)
    ensures
        state_map(rs).contains_key(k) <==> current_value(rs, k) is Some,
        current_value(rs, k) matches Some(v) ==> state_map(rs)[k] == v,
    decreases rs.len(),
{
    if rs.len() == 0 {
    } else {
        let dl = rs.drop_last();
        lemma_state_is_current(dl, k);
        lemma_replay_distinct(dl);
        match rs.last() {
            RecordModel::Insert { key, value } => {
                lemma_replay_push(dl, rs.last());
                assert(dl.push(rs.last()) =~= rs);
                lemma_assoc_map_update(replay(dl), key, value);
            },
            RecordModel::Remove { key } => {
                lemma_replay_push(dl, rs.last());
                assert(dl.push(rs.last()) =~= rs);
                lemma_assoc_map_delete(replay(dl), key);
            },
        }
    }
}

/// The record sequence after one write lands: compacted when the write
/// pushed the count past the threshold, unchanged otherwise.
pub open spec fn after_write(rs: Seq<RecordModel>, threshold: int) -> Seq<RecordModel> {
    if rs.len() > threshold {
        compacted(rs)
    } else {
        rs
    }
}

/// Whether or not the write triggered compaction, the observable state is
/// the same.
pub proof fn lemma_after_write_state(rs: Seq<RecordModel>, threshold: int)
    ensures
        state_map(after_write(rs, threshold)) == state_map(rs),
{
    if rs.len() > threshold {
        lemma_compact_preserves(rs);
    }
}

/// The compaction trigger: a write that pushes the record count past the
/// threshold compacts before returning, and the log then holds exactly one
/// record per surviving binding — so the record counter equals the
/// surviving count. A write at or under the threshold leaves the log as
/// appended.
pub proof fn lemma_threshold_compacts(rs: Seq<RecordModel>, threshold: int)
    ensures
        rs.len() > threshold ==> after_write(rs, threshold) == compacted(rs) && compacted(
            rs,
        ).len() == replay(rs).len(),
        rs.len() <= threshold ==> after_write(rs, threshold) == rs,
{
}

} // verus!
