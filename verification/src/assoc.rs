//! An association list of key/value pairs, the mathematical model of the
//! in-memory index, together with the lemmas that relate its operations to
//! the map it denotes.

use vstd::prelude::*;

verus! {

/// One key/value pair of the model.
pub type Pair = (Seq<char>, Seq<char>);

/// True when `k` is a key of `al`.
pub open spec fn has_key(al: Seq<Pair>, k: Seq<char>) -> bool {
    exists|i: int| 0 <= i < al.len() && al[i].0 == k
}

/// True when no two entries of `al` share a key.
pub open spec fn distinct_keys(al: Seq<Pair>) -> bool {
    forall|i: int, j: int| 0 <= i < j < al.len() ==> al[i].0 != al[j].0
}

/// Binding `k` to `v`: the entry holding `k` is replaced in place, or a new
/// entry is appended when `k` is absent.
pub open spec fn assoc_update(al: Seq<Pair>, k: Seq<char>, v: Seq<char>) -> Seq<Pair> {
    if has_key(al, k) {
        Seq::new(al.len(), |i: int| if al[i].0 == k { (k, v) } else { al[i] })
    } else {
        al.push((k, v))
    }
}

/// Unbinding `k`: every entry holding `k` is dropped, the rest keep their
/// order.
pub open spec fn assoc_delete(al: Seq<Pair>, k: Seq<char>) -> Seq<Pair>
    decreases al.len(),
{
    if al.len() == 0 {
        al
    } else if al.last().0 == k {
        assoc_delete(al.drop_last(), k)
    } else {
        assoc_delete(al.drop_last(), k).push(al.last())
    }
}

/// The finite map an association list denotes; a later entry wins over an
/// earlier one with the same key.
pub open spec fn assoc_map(al: Seq<Pair>) -> Map<Seq<char>, Seq<char>>
    decreases al.len(),
{
    if al.len() == 0 {
        Map::<Seq<char>, Seq<char>>::empty()
    } else {
        assoc_map(al.drop_last()).insert(al.last().0, al.last().1)
    }
}

/// The denoted map holds a key exactly when some entry does.
pub proof fn lemma_assoc_map_has_key(al: Seq<Pair>, k: Seq<char>)
    ensures
        assoc_map(al).contains_key(k) <==> has_key(al, k),
    decreases al.len(),
{
    if al.len() == 0 {
    } else {
        let dl = al.drop_last();
        lemma_assoc_map_has_key(dl, k);
        if al.last().0 == k {
            assert(al[al.len() - 1].0 == k);
        } else {
            if has_key(dl, k) {
                let i = choose|i: int| 0 <= i < dl.len() && dl[i].0 == k;
                assert(al[i].0 == k);
            }
            if has_key(al, k) {
                let i = choose|i: int| 0 <= i < al.len() && al[i].0 == k;
                assert(dl[i].0 == k);
            }
        }
    }
}

/// With distinct keys, entry `i` is what the denoted map binds its key to.
pub proof fn lemma_assoc_val(al: Seq<Pair>, i: int)
    requires
        distinct_keys(al),
        0 <= i < al.len(),
    ensures
        assoc_map(al).contains_key(al[i].0),
        assoc_map(al)[al[i].0] == al[i].1,
    decreases al.len(),
{
    let dl = al.drop_last();
    if i == al.len() - 1 {
    } else {
        assert(distinct_keys(dl));
        lemma_assoc_val(dl, i);
        assert(al[i].0 != al.last().0);
    }
}

/// Binding a key inserts it into the denoted map and keeps the keys
/// distinct.
pub proof fn lemma_assoc_map_update(al: Seq<Pair>, k: Seq<char>, v: Seq<char>)
    requires
        distinct_keys(al),
    ensures
        distinct_keys(assoc_update(al, k, v)),
        assoc_map(assoc_update(al, k, v)) == assoc_map(al).insert(k, v),
        has_key(assoc_update(al, k, v), k),
    decreases al.len(),
{
    if !has_key(al, k) {
        let nl = al.push((k, v));
        assert(forall|i: int| 0 <= i < al.len() ==> al[i].0 != k);
        assert(nl.drop_last() =~= al);
        assert(nl[al.len() as int].0 == k);
    } else {
        let nl = assoc_update(al, k, v);
        let dl = al.drop_last();
        assert(distinct_keys(dl));
        assert forall|i: int| 0 <= i < nl.len() implies nl[i].0 == al[i].0 by {}
        if al.last().0 == k {
            assert(forall|i: int| 0 <= i < dl.len() ==> dl[i].0 != k);
            assert(nl.drop_last() =~= dl);
            assert(nl.last() == (k, v));
            assert(assoc_map(dl).insert(k, al.last().1).insert(k, v) =~= assoc_map(dl).insert(
                k,
                v,
            ));
        } else {
            let i = choose|i: int| 0 <= i < al.len() && al[i].0 == k;
            assert(dl[i].0 == k);
            lemma_assoc_map_update(dl, k, v);
            assert(nl.drop_last() =~= assoc_update(dl, k, v));
            assert(nl.last() == al.last());
            assert(assoc_map(dl).insert(k, v).insert(al.last().0, al.last().1) =~= assoc_map(
                dl,
            ).insert(al.last().0, al.last().1).insert(k, v));
        }
    }
}

/// Unbinding a key removes it from the denoted map, keeps the keys distinct,
/// and drops no other key.
pub proof fn lemma_assoc_map_delete(al: Seq<Pair>, k: Seq<char>)
    requires
        distinct_keys(al),
    ensures
        distinct_keys(assoc_delete(al, k)),
        assoc_map(assoc_delete(al, k)) == assoc_map(al).remove(k),
        !has_key(assoc_delete(al, k), k),
        forall|i: int|
            0 <= i < assoc_delete(al, k).len() ==> has_key(al, assoc_delete(al, k)[i].0),
    decreases al.len(),
{
    if al.len() == 0 {
        assert(assoc_map(al).remove(k) =~= assoc_map(al));
    } else {
        let dl = al.drop_last();
        let d = assoc_delete(dl, k);
        assert(distinct_keys(dl));
        lemma_assoc_map_delete(dl, k);
        assert forall|i: int| 0 <= i < d.len() implies has_key(al, d[i].0) by {
            let j = choose|j: int| 0 <= j < dl.len() && dl[j].0 == d[i].0;
            assert(al[j].0 == d[i].0);
        }
        if al.last().0 == k {
            assert(assoc_map(dl).insert(al.last().0, al.last().1).remove(k) =~= assoc_map(
                dl,
            ).remove(k));
        } else {
            let nl = d.push(al.last());
            assert forall|i: int, j: int| 0 <= i < j < nl.len() implies nl[i].0 != nl[j].0 by {
                if j == nl.len() - 1 {
                    let m = choose|m: int| 0 <= m < dl.len() && dl[m].0 == nl[i].0;
                    assert(al[m].0 == nl[i].0);
                    assert(al[m].0 != al.last().0);
                }
            }
            assert(nl.drop_last() =~= d);
            assert(assoc_map(d).insert(al.last().0, al.last().1) =~= assoc_map(dl).insert(
                al.last().0,
                al.last().1,
            ).remove(k));
            assert forall|i: int| 0 <= i < nl.len() implies nl[i].0 != k by {}
        }
    }
}

/// Unbinding an absent key changes nothing.
pub proof fn lemma_assoc_delete_absent(al: Seq<Pair>, k: Seq<char>)
    requires
        !has_key(al, k),
    ensures
        assoc_delete(al, k) == al,
    decreases al.len(),
{
    if al.len() == 0 {
    } else {
        let dl = al.drop_last();
        assert(al[al.len() - 1] == al.last());
        assert forall|i: int| 0 <= i < dl.len() implies dl[i].0 != k by {
            assert(al[i].0 != k);
        }
        lemma_assoc_delete_absent(dl, k);
        assert(assoc_delete(al, k) =~= al);
    }
}

/// With distinct keys, unbinding the key of entry `i` removes exactly that
/// entry.
pub proof fn lemma_assoc_delete_at(al: Seq<Pair>, k: Seq<char>, i: int)
    requires
        distinct_keys(al),
        0 <= i < al.len(),
        al[i].0 == k,
    ensures
        assoc_delete(al, k) == al.remove(i),
    decreases al.len(),
{
    let dl = al.drop_last();
    assert(distinct_keys(dl));
    if i == al.len() - 1 {
        assert forall|j: int| 0 <= j < dl.len() implies dl[j].0 != k by {
            assert(al[j].0 != al[i].0);
        }
        lemma_assoc_delete_absent(dl, k);
        assert(al.remove(i) =~= dl);
    } else {
        assert(al.last().0 != al[i].0);
        lemma_assoc_delete_at(dl, k, i);
        assert(assoc_delete(al, k) =~= al.remove(i));
    }
}

/// With distinct keys, binding the key of entry `i` updates exactly that
/// entry.
pub proof fn lemma_assoc_update_at(al: Seq<Pair>, k: Seq<char>, v: Seq<char>, i: int)
    requires
        distinct_keys(al),
        0 <= i < al.len(),
        al[i].0 == k,
    ensures
        assoc_update(al, k, v) == al.update(i, (k, v)),
{
    assert(has_key(al, k));
    assert forall|j: int| 0 <= j < al.len() implies assoc_update(al, k, v)[j] == al.update(
        i,
        (k, v),
    )[j] by {
        if j != i {
            assert(al[j].0 != al[i].0);
        }
    }
    assert(assoc_update(al, k, v) =~= al.update(i, (k, v)));
}

} // verus!
