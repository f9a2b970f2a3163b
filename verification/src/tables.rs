//! The hash tables of the library, which hash with `fxhash`, and what is taken on trust
//! of them.

use vstd::prelude::*;
use std::hash::{BuildHasherDefault, Hash};
use vstd::std_specs::hash::obeys_key_model;
use fxhash::{FxHashMap, FxHashSet, FxHasher};

verus! {

/// `fxhash::FxHasher`, the hasher of every table below. Nothing is said of what is inside.
#[verifier::external_type_specification]
#[verifier::external_body]
pub struct ExFxHasher(FxHasher);

/// `std::hash::BuildHasherDefault`, which makes a fresh hasher by `Default`.
#[verifier::external_type_specification]
#[verifier::external_body]
#[verifier::reject_recursive_types(H)]
pub struct ExBuildHasherDefault<H>(BuildHasherDefault<H>);

/// A table from names to values.
pub type NameMap<V> = FxHashMap<String, V>;

/// What a table keyed by strings holds, keyed by the strings' text.
pub open spec fn by_name<V>(m: Map<String, V>) -> Map<Seq<char>, V> {
    Map::new(
        |n: Seq<char>| exists|k: String| k@ == n && m.contains_key(k),
        |n: Seq<char>| m[choose|k: String| k@ == n && m.contains_key(k)],
    )
}

/// The text of each string of a list.
pub open spec fn texts(names: Seq<String>) -> Seq<Seq<char>> {
    names.map_values(|s: String| s@)
}

/// `names` lists each key of `m` once.
pub open spec fn lists_keys<V>(names: Seq<String>, m: Map<Seq<char>, V>) -> bool {
    &&& texts(names).no_duplicates()
    &&& forall|n: Seq<char>| texts(names).contains(n) <==> m.contains_key(n)
}

/// The step along a list of distinct names: the name in place `i` is none of those before
/// it, and together with them it makes up the names before place `i + 1`.
pub proof fn lemma_next_name(names: Seq<String>, i: int)
    requires
        0 <= i < names.len(),
        texts(names).no_duplicates(),
    ensures
        texts(names)[i] == names[i]@,
        texts(names).contains(names[i]@),
        !texts(names).take(i).contains(names[i]@),
        texts(names).take(i + 1) == texts(names).take(i).push(names[i]@),
        forall|n: Seq<char>|
            texts(names).take(i + 1).contains(n) <==> texts(names).take(i).contains(n) || n
                == names[i]@,
{
    let all = texts(names);
    let done = all.take(i);
    let name = names[i]@;
    assert(all[i] == name);
    if done.contains(name) {
        let j = choose|j: int| 0 <= j < done.len() && done[j] == name;
        assert(all[j] == all[i]);
    }
    assert(all.take(i + 1) == done.push(name));
    assert forall|n: Seq<char>| done.push(name).contains(n) <==> done.contains(n) || n
        == name by {
        if done.contains(n) {
            let j = choose|j: int| 0 <= j < done.len() && done[j] == n;
            assert(done.push(name)[j] == n);
        }
        if n == name {
            assert(done.push(name)[done.len() as int] == n);
        }
    }
}

/// A table without entries.
pub fn name_map_new<V>() -> (m: NameMap<V>)
    ensures
        by_name(m@) == Map::<Seq<char>, V>::empty(),
{
    let m: NameMap<V> = FxHashMap::default();
    assert(by_name(m@) =~= Map::<Seq<char>, V>::empty());
    m
}

/// `HashMap::insert` on a table that hashes with `FxHasher`. `FxHasher` starts every hash
/// from the same state and folds the key's bytes in by fixed arithmetic, so keys of equal
/// text meet: afterwards the table holds `value` under the name, and everything else as
/// before. The result is what the name held before.
#[verifier::external_body]
pub(crate) fn name_map_insert<V>(m: &mut NameMap<V>, name: String, value: V) -> (r: Option<V>)
    ensures
        by_name(final(m)@) == by_name(old(m)@).insert(name@, value),
        r == (if by_name(old(m)@).contains_key(name@) {
            Some(by_name(old(m)@)[name@])
        } else {
            None
        }),
{
    m.insert(name, value)
}

/// `HashMap::remove` on a table that hashes with `FxHasher`: the entry of that name leaves
/// the table and is returned, if there was one.
#[verifier::external_body]
pub(crate) fn name_map_remove<V>(m: &mut NameMap<V>, name: &str) -> (r: Option<V>)
    ensures
        by_name(final(m)@) == by_name(old(m)@).remove(name@),
        r == (if by_name(old(m)@).contains_key(name@) {
            Some(by_name(old(m)@)[name@])
        } else {
            None
        }),
{
    m.remove(name)
}

/// `HashMap::get` on a table that hashes with `FxHasher`: the value held under the name.
#[verifier::external_body]
pub(crate) fn name_map_get<'a, V>(m: &'a NameMap<V>, name: &str) -> (r: Option<&'a V>)
    ensures
        r == (if by_name(m@).contains_key(name@) {
            Some(&by_name(m@)[name@])
        } else {
            None
        }),
{
    m.get(name)
}

/// `HashMap::keys` on a table that hashes with `FxHasher`, each key cloned into a list:
/// every key occurs once. The order is that of the table's buckets, of which nothing is
/// said.
#[verifier::external_body]
pub(crate) fn name_map_names<V>(m: &NameMap<V>) -> (r: Vec<String>)
    ensures
        lists_keys(r@, by_name(m@)),
{
    m.keys().cloned().collect()
}

/// `HashMap::insert` on a table with integer keys that hashes with `FxHasher`: afterwards
/// the table holds `value` under `key`, and everything else as before.
#[verifier::external_body]
pub(crate) fn table_insert<K: Eq + Hash, V>(m: &mut FxHashMap<K, V>, key: K, value: V)
    requires
        obeys_key_model::<K>(),
    ensures
        final(m)@ == old(m)@.insert(key, value),
{
    m.insert(key, value);
}

/// `HashMap::get` on a table with integer keys that hashes with `FxHasher`: the value
/// held under `key`.
#[verifier::external_body]
pub(crate) fn table_get<'a, K: Eq + Hash, V>(m: &'a FxHashMap<K, V>, key: &K) -> (r: Option<&'a V>)
    requires
        obeys_key_model::<K>(),
    ensures
        r == (if m@.contains_key(*key) {
            Some(&m@[*key])
        } else {
            None
        }),
{
    m.get(key)
}

/// `HashMap::remove` on a table with integer keys that hashes with `FxHasher`: the entry
/// under `key` leaves the table and is returned, if there was one.
#[verifier::external_body]
pub(crate) fn table_remove<K: Eq + Hash, V>(m: &mut FxHashMap<K, V>, key: &K) -> (r: Option<V>)
    requires
        obeys_key_model::<K>(),
    ensures
        final(m)@ == old(m)@.remove(*key),
        r == (if old(m)@.contains_key(*key) {
            Some(old(m)@[*key])
        } else {
            None
        }),
{
    m.remove(key)
}

/// `HashSet::insert` on a set of block numbers that hashes with `FxHasher`: the number is
/// in the set afterwards, and the result says whether it was new.
#[verifier::external_body]
pub(crate) fn block_set_insert(s: &mut FxHashSet<usize>, block: usize) -> (r: bool)
    ensures
        final(s)@ == old(s)@.insert(block),
        r == !old(s)@.contains(block),
{
    s.insert(block)
}

} // verus!
