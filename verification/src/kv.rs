//! Association lists keyed by byte strings, with their map view.
//!
//! The unmatched-reply cache and the session registry both hold their
//! entries as a vector of key/value pairs with pairwise distinct keys;
//! contracts speak about them through [`assoc_map`].

use vstd::prelude::*;

verus! {

/// The map an association list denotes; a later entry would win, but
/// the lists kept here never repeat a key.
pub open spec fn assoc_map<V>(entries: Seq<(Seq<u8>, V)>) -> Map<Seq<u8>, V>
    decreases entries.len(),
{
    if entries.len() == 0 {
        Map::empty()
    } else {
        assoc_map(entries.drop_last()).insert(entries.last().0, entries.last().1)
    }
}

/// Pairwise distinct keys.
pub open spec fn unique_keys<V>(entries: Seq<(Seq<u8>, V)>) -> bool {
    forall|i: int, j: int|
        0 <= i < j < entries.len() ==> (#[trigger] entries[i]).0 != (#[trigger] entries[j]).0
}

/// A key is in the map exactly when some entry carries it.
pub proof fn lemma_assoc_contains<V>(entries: Seq<(Seq<u8>, V)>, k: Seq<u8>)
    ensures
        assoc_map(entries).contains_key(k) <==> exists|i: int|
            0 <= i < entries.len() && (#[trigger] entries[i]).0 == k,
    decreases entries.len(),
{
    if entries.len() > 0 {
        lemma_assoc_contains(entries.drop_last(), k);
        if entries.last().0 == k {
            assert(entries[entries.len() - 1].0 == k);
        } else if assoc_map(entries).contains_key(k) {
            let i = choose|i: int|
                0 <= i < entries.drop_last().len() && (#[trigger] entries.drop_last()[i]).0 == k;
            assert(entries[i].0 == k);
        } else {
            if exists|i: int| 0 <= i < entries.len() && (#[trigger] entries[i]).0 == k {
                let i = choose|i: int| 0 <= i < entries.len() && (#[trigger] entries[i]).0 == k;
                assert(entries.drop_last()[i].0 == k);
            }
        }
    }
}

/// With distinct keys, entry `i` gives the map's value at its key.
pub proof fn lemma_assoc_value<V>(entries: Seq<(Seq<u8>, V)>, i: int)
    requires
        unique_keys(entries),
        0 <= i < entries.len(),
    ensures
        assoc_map(entries).contains_key(entries[i].0),
        assoc_map(entries)[entries[i].0] == entries[i].1,
    decreases entries.len(),
{
    if i == entries.len() - 1 {
    } else {
        assert(unique_keys(entries.drop_last())) by {
            assert(forall|a: int, b: int|
                0 <= a < b < entries.drop_last().len() ==> (#[trigger] entries.drop_last()[a]).0
                    != (#[trigger] entries.drop_last()[b]).0);
        }
        lemma_assoc_value(entries.drop_last(), i);
        assert(entries.drop_last()[i] == entries[i]);
        assert(entries[i].0 != entries.last().0);
    }
}

/// Replacing the value of entry `i` updates the map at that key alone.
pub proof fn lemma_assoc_update<V>(entries: Seq<(Seq<u8>, V)>, i: int, v: V)
    requires
        unique_keys(entries),
        0 <= i < entries.len(),
    ensures
        assoc_map(entries.update(i, (entries[i].0, v))) =~= assoc_map(entries).insert(
            entries[i].0,
            v,
        ),
    decreases entries.len(),
{
    let updated = entries.update(i, (entries[i].0, v));
    if i == entries.len() - 1 {
        assert(updated.drop_last() =~= entries.drop_last());
        lemma_assoc_contains(entries.drop_last(), entries[i].0);
    } else {
        assert(unique_keys(entries.drop_last())) by {
            assert(forall|a: int, b: int|
                0 <= a < b < entries.drop_last().len() ==> (#[trigger] entries.drop_last()[a]).0
                    != (#[trigger] entries.drop_last()[b]).0);
        }
        assert(updated.drop_last() =~= entries.drop_last().update(i, (entries[i].0, v)));
        assert(entries.drop_last()[i] == entries[i]);
        lemma_assoc_update(entries.drop_last(), i, v);
        assert(updated.last() == entries.last());
        assert(entries[i].0 != entries.last().0);
    }
}

/// A byte vector's deep view is its view.
pub broadcast proof fn lemma_bytes_deep_view(v: Vec<u8>)
    ensures
        #[trigger] v.deep_view() == v@,
{
    assert(v.deep_view() =~= v@);
}

/// Compares two byte strings.
pub fn keys_eq(a: &Vec<u8>, b: &Vec<u8>) -> (r: bool)
    ensures
        r == (a@ == b@),
{
    let r = a == b;
    proof {
        if r {
            assert(a@ =~= b@);
        } else {
            if a@ == b@ {
                assert(forall|i: int| 0 <= i < a@.len() ==> a@[i] == b@[i]);
                assert(false);
            }
        }
    }
    r
}

/// Finds the entry carrying `key`, if any.
pub fn find_key<V>(entries: &Vec<(Vec<u8>, V)>, key: &Vec<u8>) -> (r: Option<usize>)
    ensures
        match r {
            Some(i) => 0 <= i < entries@.len() && entries@[i as int].0@ == key@,
            None => forall|j: int| 0 <= j < entries@.len() ==> (#[trigger] entries@[j]).0@ != key@,
        },
{
    let mut i: usize = 0;
    while i < entries.len()
        invariant
            0 <= i <= entries@.len(),
            forall|j: int| 0 <= j < i ==> (#[trigger] entries@[j]).0@ != key@,
        decreases entries@.len() - i,
    {
        if keys_eq(&entries[i].0, key) {
            return Some(i);
        }
        i = i + 1;
    }
    None
}

} // verus!
