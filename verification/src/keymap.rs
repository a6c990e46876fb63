//! Keyed entry sequences.
//!
//! Both registries hold their buckets as a sequence of `(key, value)` entries
//! with pairwise-distinct keys. The spec functions here give such a sequence
//! a map-like reading — membership and the value a key is bound to — and the
//! lemmas show how updating one entry or appending a fresh key changes that
//! reading: the touched key gets the new value and every other key keeps its
//! binding.

use vstd::prelude::*;

verus! {

/// Whether some entry binds the key `k`.
pub open spec fn has_key<T>(es: Seq<(Seq<char>, T)>, k: Seq<char>) -> bool {
    exists|i: int| 0 <= i < es.len() && (#[trigger] es[i]).0 == k
}

/// The index of the entry binding `k` (meaningful when `has_key` holds and
/// the keys are unique).
pub open spec fn key_index<T>(es: Seq<(Seq<char>, T)>, k: Seq<char>) -> int {
    choose|i: int| 0 <= i < es.len() && (#[trigger] es[i]).0 == k
}

/// The value bound to `k` (meaningful when `has_key` holds and the keys are
/// unique).
pub open spec fn value_of<T>(es: Seq<(Seq<char>, T)>, k: Seq<char>) -> T {
    es[key_index(es, k)].1
}

/// Pairwise-distinct keys: at most one entry per key.
pub open spec fn unique_keys<T>(es: Seq<(Seq<char>, T)>) -> bool {
    forall|i: int, j: int|
        0 <= i < j < es.len() ==> (#[trigger] es[i]).0 != (#[trigger] es[j]).0
}

/// When the keys are unique, any entry whose key is `k` is THE entry for `k`.
pub proof fn lemma_entry_at<T>(es: Seq<(Seq<char>, T)>, k: Seq<char>, i: int)
    requires
        unique_keys(es),
        0 <= i < es.len(),
        es[i].0 == k,
    ensures
        has_key(es, k),
        key_index(es, k) == i,
        value_of(es, k) == es[i].1,
{
    assert(has_key(es, k));
    let j = key_index(es, k);
    if i < j {
        assert(es[i].0 != es[j].0);
    } else if j < i {
        assert(es[j].0 != es[i].0);
    }
}

/// Replacing the value of the entry at `i` rebinds that entry's key and
/// leaves every other key bound exactly as before.
pub proof fn lemma_update_entry<T>(es: Seq<(Seq<char>, T)>, i: int, v: T)
    requires
        unique_keys(es),
        0 <= i < es.len(),
    ensures
        es.update(i, (es[i].0, v)).len() == es.len(),
        unique_keys(es.update(i, (es[i].0, v))),
        has_key(es.update(i, (es[i].0, v)), es[i].0),
        value_of(es.update(i, (es[i].0, v)), es[i].0) == v,
        forall|k2: Seq<char>|
            k2 != es[i].0 ==> #[trigger] has_key(es.update(i, (es[i].0, v)), k2) == has_key(
                es,
                k2,
            ),
        forall|k2: Seq<char>|
            k2 != es[i].0 && has_key(es, k2) ==> #[trigger] value_of(
                es.update(i, (es[i].0, v)),
                k2,
            ) == value_of(es, k2),
{
    let k = es[i].0;
    let es2 = es.update(i, (k, v));
    assert(forall|j: int| 0 <= j < es.len() ==> (#[trigger] es2[j]).0 == es[j].0);
    lemma_entry_at(es2, k, i);
    assert forall|k2: Seq<char>| k2 != k implies #[trigger] has_key(es2, k2) == has_key(
        es,
        k2,
    ) by {
        if has_key(es, k2) {
            let j = key_index(es, k2);
            assert(es2[j].0 == k2);
        }
        if has_key(es2, k2) {
            let j = key_index(es2, k2);
            assert(es[j].0 == k2);
        }
    }
    assert forall|k2: Seq<char>| k2 != k && has_key(es, k2) implies #[trigger] value_of(
        es2,
        k2,
    ) == value_of(es, k2) by {
        lemma_entry_at(es, k2, key_index(es, k2));
        let j = key_index(es, k2);
        assert(j != i);
        lemma_entry_at(es2, k2, j);
    }
}

/// Appending an entry for a key not yet present binds that key to the new
/// value, keeps the keys unique, and leaves every other key bound exactly as
/// before.
pub proof fn lemma_push_entry<T>(es: Seq<(Seq<char>, T)>, k: Seq<char>, v: T)
    requires
        unique_keys(es),
        !has_key(es, k),
    ensures
        es.push((k, v)).len() == es.len() + 1,
        unique_keys(es.push((k, v))),
        has_key(es.push((k, v)), k),
        value_of(es.push((k, v)), k) == v,
        forall|k2: Seq<char>|
            k2 != k ==> #[trigger] has_key(es.push((k, v)), k2) == has_key(es, k2),
        forall|k2: Seq<char>|
            k2 != k && has_key(es, k2) ==> #[trigger] value_of(es.push((k, v)), k2) == value_of(
                es,
                k2,
            ),
{
    let es2 = es.push((k, v));
    assert(forall|j: int| 0 <= j < es.len() ==> es2[j] == #[trigger] es[j]);
    assert(es2[es.len() as int] == (k, v));
    assert forall|i: int, j: int| 0 <= i < j < es2.len() implies (#[trigger] es2[i]).0 != (
    #[trigger] es2[j]).0 by {
        if j < es.len() {
            assert(es[i].0 != es[j].0);
        } else {
            assert(es2[j].0 == k);
            assert(es2[i].0 == es[i].0);
        }
    }
    lemma_entry_at(es2, k, es.len() as int);
    assert forall|k2: Seq<char>| k2 != k implies #[trigger] has_key(es2, k2) == has_key(
        es,
        k2,
    ) by {
        if has_key(es, k2) {
            let j = key_index(es, k2);
            assert(es2[j].0 == k2);
        }
        if has_key(es2, k2) {
            let j = key_index(es2, k2);
            assert(j < es.len());
            assert(es[j].0 == k2);
        }
    }
    assert forall|k2: Seq<char>| k2 != k && has_key(es, k2) implies #[trigger] value_of(
        es2,
        k2,
    ) == value_of(es, k2) by {
        lemma_entry_at(es, k2, key_index(es, k2));
        let j = key_index(es, k2);
        lemma_entry_at(es2, k2, j);
    }
}

/// Linear scan for `key` among the entries of `v`. Returns the index of the
/// entry whose key equals `key`, or `None` when no entry has it.
pub fn find_key_index<T>(v: &Vec<(String, T)>, key: &String) -> (r: Option<usize>)
    ensures
        match r {
            Some(i) => 0 <= i < v@.len() && v@[i as int].0@ == key@,
            None => forall|j: int| 0 <= j < v@.len() ==> (#[trigger] v@[j]).0@ != key@,
        },
{
    let mut i: usize = 0;
    while i < v.len()
        invariant
            i <= v@.len(),
            forall|j: int| 0 <= j < i ==> (#[trigger] v@[j]).0@ != key@,
        decreases v@.len() - i,
    {
        if v[i].0 == *key {
            return Some(i);
        }
        i = i + 1;
    }
    None
}

} // verus!
