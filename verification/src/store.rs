//! The ordered hash map that holds the cells of a grid, and what the grid
//! relies on from it.
//!
//! The map is `indexmap::IndexMap`. Its code is not verified here: each
//! function below that calls into it states what the call does to the
//! sequence of the map's entries, and the rest of the crate is proved from
//! those statements.

use crate::seqs::{is_not, lemma_filter_all, lemma_filter_push};
use indexmap::IndexMap;
use vstd::prelude::*;

verus! {

/// `indexmap::IndexMap`, made known as a type. Nothing is said of what a
/// value of it holds but through `entries`.
#[verifier::external_type_specification]
#[verifier::external_body]
#[verifier::reject_recursive_types(K)]
#[verifier::reject_recursive_types(V)]
#[verifier::reject_recursive_types(S)]
pub struct ExIndexMap<K, V, S>(IndexMap<K, V, S>);

/// The entries of a map, key and value, in the map's own order: the order
/// in which it is indexed and walked. That order is made by the insertions
/// and removals alone; the hashes of the keys have no part in it.
pub uninterp spec fn entries(m: IndexMap<(i128, i128), bool>) -> Seq<((i128, i128), bool)>;

/// Whether some entry has the key `key`.
pub open spec fn has_key(es: Seq<((i128, i128), bool)>, key: (i128, i128)) -> bool {
    exists|i: int| 0 <= i < es.len() && (#[trigger] es[i]).0 == key
}

/// The place of the entry with the key `key`, where there is one.
pub open spec fn index_of(es: Seq<((i128, i128), bool)>, key: (i128, i128)) -> int {
    choose|i: int| 0 <= i < es.len() && (#[trigger] es[i]).0 == key
}

/// The value stored under `key`, if any.
pub open spec fn value_of(es: Seq<((i128, i128), bool)>, key: (i128, i128)) -> Option<bool> {
    if has_key(es, key) {
        Some(es[index_of(es, key)].1)
    } else {
        None
    }
}

/// The entries after `key` was given the value `value`: an entry that has
/// the key keeps its place, a new entry goes to the end.
pub open spec fn inserted(es: Seq<((i128, i128), bool)>, key: (i128, i128), value: bool) -> Seq<
    ((i128, i128), bool),
> {
    if has_key(es, key) {
        es.update(index_of(es, key), (key, value))
    } else {
        es.push((key, value))
    }
}

/// The entries after `key` was taken out: the entries behind the one that
/// left move up by one place, and the order of those that stay is kept.
pub open spec fn removed(es: Seq<((i128, i128), bool)>, key: (i128, i128)) -> Seq<
    ((i128, i128), bool),
> {
    if has_key(es, key) {
        es.remove(index_of(es, key))
    } else {
        es
    }
}

/// No two entries share a key.
pub open spec fn distinct_keys(es: Seq<((i128, i128), bool)>) -> bool {
    forall|i: int, j: int| 0 <= i < j < es.len() ==> (#[trigger] es[i]).0 != (#[trigger] es[j]).0
}

/// Every stored value is `true`.
pub open spec fn all_true(es: Seq<((i128, i128), bool)>) -> bool {
    forall|i: int| 0 <= i < es.len() ==> (#[trigger] es[i]).1
}

/// The keys, in the order of the entries.
pub open spec fn keys(es: Seq<((i128, i128), bool)>) -> Seq<(i128, i128)> {
    Seq::new(es.len(), |i: int| es[i].0)
}

/// `IndexMap::new`: the result holds no entry.
#[verifier::external_body]
pub(crate) fn empty_map() -> (m: IndexMap<(i128, i128), bool>)
    ensures
        entries(m) == Seq::<((i128, i128), bool)>::empty(),
{
    IndexMap::new()
}

/// `IndexMap::clone`: the copy holds the same entries in the same order.
#[verifier::external_body]
pub(crate) fn copy_map(m: &IndexMap<(i128, i128), bool>) -> (copy: IndexMap<(i128, i128), bool>)
    ensures
        entries(copy) == entries(*m),
{
    m.clone()
}

/// `IndexMap::len`: the number of entries.
#[verifier::external_body]
pub(crate) fn map_len(m: &IndexMap<(i128, i128), bool>) -> (n: usize)
    ensures
        n == entries(*m).len(),
{
    m.len()
}

/// `IndexMap::get_index`: the key of the entry at `index`, and `None` from
/// the number of entries on.
#[verifier::external_body]
pub(crate) fn key_at(m: &IndexMap<(i128, i128), bool>, index: usize) -> (key: Option<(i128, i128)>)
    ensures
        key == if index < entries(*m).len() {
            Some(entries(*m)[index as int].0)
        } else {
            None
        },
{
    m.get_index(index).map(|(key, _)| *key)
}

/// `IndexMap::contains_key`: whether an entry has the key.
#[verifier::external_body]
pub(crate) fn map_contains_key(m: &IndexMap<(i128, i128), bool>, key: (i128, i128)) -> (found: bool)
    ensures
        found == has_key(entries(*m), key),
{
    m.contains_key(&key)
}

/// `IndexMap::get`: the value stored under the key, if an entry has it.
#[verifier::external_body]
pub(crate) fn map_get(m: &IndexMap<(i128, i128), bool>, key: (i128, i128)) -> (value: Option<bool>)
    ensures
        value == value_of(entries(*m), key),
{
    m.get(&key).copied()
}

/// `IndexMap::insert`: an entry that has the key keeps its place and takes
/// the new value; otherwise a new entry is added behind all others.
#[verifier::external_body]
pub(crate) fn map_insert(m: &mut IndexMap<(i128, i128), bool>, key: (i128, i128), value: bool)
    ensures
        entries(*final(m)) == inserted(entries(*old(m)), key, value),
{
    m.insert(key, value);
}

/// `IndexMap::shift_remove`: the entry that has the key leaves, and those
/// behind it move up; without such an entry nothing changes.
#[verifier::external_body]
pub(crate) fn map_shift_remove(m: &mut IndexMap<(i128, i128), bool>, key: (i128, i128))
    ensures
        entries(*final(m)) == removed(entries(*old(m)), key),
{
    m.shift_remove(&key);
}

/// The keys are without repetition exactly when no two entries share a
/// key, and a key is among them exactly when an entry has it.
pub proof fn lemma_keys(es: Seq<((i128, i128), bool)>)
    ensures
        keys(es).no_duplicates() <==> distinct_keys(es),
        forall|key: (i128, i128)| keys(es).contains(key) <==> has_key(es, key),
{
    let ks = keys(es);
    assert forall|key: (i128, i128)| ks.contains(key) <==> has_key(es, key) by {
        if ks.contains(key) {
            let i = choose|i: int| 0 <= i < ks.len() && ks[i] == key;
            assert(es[i].0 == key);
        }
        if has_key(es, key) {
            let i = index_of(es, key);
            assert(ks[i] == key);
        }
    }
    if distinct_keys(es) {
        assert forall|i: int, j: int| 0 <= i < ks.len() && 0 <= j < ks.len() && i != j implies ks[i]
            != ks[j] by {
            if i < j {
                assert(es[i].0 != es[j].0);
            } else {
                assert(es[j].0 != es[i].0);
            }
        }
    }
    if ks.no_duplicates() {
        assert forall|i: int, j: int| 0 <= i < j < es.len() implies (#[trigger] es[i]).0 != (
        #[trigger] es[j]).0 by {
            assert(ks[i] != ks[j]);
        }
    }
}

/// What `inserted` does to the keys: a new key goes to the end, and
/// nothing else changes; no key comes to stand twice.
pub proof fn lemma_inserted(es: Seq<((i128, i128), bool)>, key: (i128, i128), value: bool)
    requires
        distinct_keys(es),
    ensures
        distinct_keys(inserted(es, key, value)),
        keys(inserted(es, key, value)) == if keys(es).contains(key) {
            keys(es)
        } else {
            keys(es).push(key)
        },
        all_true(es) && value ==> all_true(inserted(es, key, value)),
{
    let after = inserted(es, key, value);
    lemma_keys(es);
    if has_key(es, key) {
        assert(keys(after) =~= keys(es));
    } else {
        assert(keys(after) =~= keys(es).push(key));
    }
}

/// What `removed` does to the keys: `key` leaves them and the others keep
/// their order; no key comes to stand twice.
pub proof fn lemma_removed(es: Seq<((i128, i128), bool)>, key: (i128, i128))
    requires
        distinct_keys(es),
    ensures
        distinct_keys(removed(es, key)),
        keys(removed(es, key)) == keys(es).filter(is_not(key)),
        all_true(es) ==> all_true(removed(es, key)),
{
    let after = removed(es, key);
    lemma_keys(es);
    if has_key(es, key) {
        let at = index_of(es, key);
        assert(keys(after) =~= keys(es).remove(at));
        lemma_remove_is_filter(keys(es), at);
    } else {
        lemma_filter_all(keys(es), is_not(key));
    }
}

/// In a sequence without repetition, to take the element at `at` out is to
/// keep every element that differs from it.
pub proof fn lemma_remove_is_filter(cells: Seq<(i128, i128)>, at: int)
    requires
        cells.no_duplicates(),
        0 <= at < cells.len(),
    ensures
        cells.remove(at) == cells.filter(is_not(cells[at])),
    decreases cells.len(),
{
    let keep = is_not(cells[at]);
    let front = cells.drop_last();
    lemma_filter_push(front, cells.last(), keep);
    assert(front.push(cells.last()) =~= cells);
    if at == cells.len() - 1 {
        lemma_filter_all(front, keep);
        assert(cells.remove(at) =~= front);
    } else {
        lemma_remove_is_filter(front, at);
        assert(cells.remove(at) =~= front.remove(at).push(cells.last()));
    }
}

} // verus!
