//! The ordered key-value store under the queue, and its keys.
//!
//! A key is the eight bytes of a priority, most significant first. The
//! store orders its keys byte by byte from the first; for such keys that
//! is the order of the priorities they spell, so the last key of the
//! store is that of the highest priority.

use crate::layout::priorities_in_order;
use std::collections::BTreeMap;
use vstd::prelude::*;
use vstd::std_specs::btree::{increasing_seq, spec_btree_map_iter};
use vstd::std_specs::cmp::OrdSpec;
use vstd::std_specs::iter::IteratorSpec;

verus! {

/// A store key: eight bytes, compared from the first to the last.
pub type Key = (u8, u8, u8, u8, u8, u8, u8, u8);

/// The store: keys in ascending order, one packed list under each.
pub type KeyValueStore = BTreeMap<Key, Vec<u8>>;

/// The priority that a key spells, its first byte the most significant.
pub open spec fn key_priority(key: Key) -> u64 {
    (key.0 * 0x100_0000_0000_0000 + key.1 * 0x1_0000_0000_0000 + key.2 * 0x100_0000_0000 + key.3
        * 0x1_0000_0000 + key.4 * 0x100_0000 + key.5 * 0x1_0000 + key.6 * 0x100 + key.7) as u64
}

/// The key of a priority: its eight bytes, most significant first.
pub open spec fn key_of(priority: u64) -> Key {
    (
        (priority / 0x100_0000_0000_0000 % 0x100) as u8,
        (priority / 0x1_0000_0000_0000 % 0x100) as u8,
        (priority / 0x100_0000_0000 % 0x100) as u8,
        (priority / 0x1_0000_0000 % 0x100) as u8,
        (priority / 0x100_0000 % 0x100) as u8,
        (priority / 0x1_0000 % 0x100) as u8,
        (priority / 0x100 % 0x100) as u8,
        (priority % 0x100) as u8,
    )
}

/// Whether `low` stands before `high` in the store's order.
pub open spec fn key_less(low: Key, high: Key) -> bool {
    low.cmp_spec(&high) is Less
}

/// Byte-by-byte order, written out: the first byte that differs decides.
pub open spec fn lex_less(low: Key, high: Key) -> bool {
    ||| low.0 < high.0
    ||| low.0 == high.0 && low.1 < high.1
    ||| low.0 == high.0 && low.1 == high.1 && low.2 < high.2
    ||| low.0 == high.0 && low.1 == high.1 && low.2 == high.2 && low.3 < high.3
    ||| low.0 == high.0 && low.1 == high.1 && low.2 == high.2 && low.3 == high.3 && low.4
        < high.4
    ||| low.0 == high.0 && low.1 == high.1 && low.2 == high.2 && low.3 == high.3 && low.4
        == high.4 && low.5 < high.5
    ||| low.0 == high.0 && low.1 == high.1 && low.2 == high.2 && low.3 == high.3 && low.4
        == high.4 && low.5 == high.5 && low.6 < high.6
    ||| low.0 == high.0 && low.1 == high.1 && low.2 == high.2 && low.3 == high.3 && low.4
        == high.4 && low.5 == high.5 && low.6 == high.6 && low.7 < high.7
}

/// The store's order on keys is the byte-by-byte order.
pub proof fn lemma_key_less_is_lex(low: Key, high: Key)
    ensures
        key_less(low, high) <==> lex_less(low, high),
{
}

/// The byte-by-byte order of two keys is the order of the priorities
/// they spell, and different keys spell different priorities.
pub proof fn lemma_lex_is_numeric(low: Key, high: Key)
    ensures
        lex_less(low, high) <==> key_priority(low) < key_priority(high),
        low == high <==> key_priority(low) == key_priority(high),
{
    let l6: int = low.6 * 0x100 + low.7;
    let h6: int = high.6 * 0x100 + high.7;
    assert(l6 < h6 <==> (low.6 < high.6 || (low.6 == high.6 && low.7 < high.7)));
    let l5: int = low.5 * 0x1_0000 + l6;
    let h5: int = high.5 * 0x1_0000 + h6;
    assert(l5 < h5 <==> (low.5 < high.5 || (low.5 == high.5 && l6 < h6)));
    let l4: int = low.4 * 0x100_0000 + l5;
    let h4: int = high.4 * 0x100_0000 + h5;
    assert(l4 < h4 <==> (low.4 < high.4 || (low.4 == high.4 && l5 < h5)));
    let l3: int = low.3 * 0x1_0000_0000 + l4;
    let h3: int = high.3 * 0x1_0000_0000 + h4;
    assert(l3 < h3 <==> (low.3 < high.3 || (low.3 == high.3 && l4 < h4)));
    let l2: int = low.2 * 0x100_0000_0000 + l3;
    let h2: int = high.2 * 0x100_0000_0000 + h3;
    assert(l2 < h2 <==> (low.2 < high.2 || (low.2 == high.2 && l3 < h3)));
    let l1: int = low.1 * 0x1_0000_0000_0000 + l2;
    let h1: int = high.1 * 0x1_0000_0000_0000 + h2;
    assert(l1 < h1 <==> (low.1 < high.1 || (low.1 == high.1 && l2 < h2)));
    let l0: int = low.0 * 0x100_0000_0000_0000 + l1;
    let h0: int = high.0 * 0x100_0000_0000_0000 + h1;
    assert(l0 < h0 <==> (low.0 < high.0 || (low.0 == high.0 && l1 < h1)));
    assert(key_priority(low) == l0);
    assert(key_priority(high) == h0);
}

/// Keys stand in the store in the order of the priorities they spell:
/// the reason for writing a priority most significant byte first.
pub proof fn lemma_key_order(low: Key, high: Key)
    ensures
        key_less(low, high) <==> key_priority(low) < key_priority(high),
        low == high <==> key_priority(low) == key_priority(high),
{
    lemma_key_less_is_lex(low, high);
    lemma_lex_is_numeric(low, high);
}

/// A key spells the priority it was made from.
pub proof fn lemma_key_priority_of_key(priority: u64)
    ensures
        key_priority(key_of(priority)) == priority,
{
    let key = key_of(priority);
    let b0: u64 = key.0 as u64;
    let b1: u64 = key.1 as u64;
    let b2: u64 = key.2 as u64;
    let b3: u64 = key.3 as u64;
    let b4: u64 = key.4 as u64;
    let b5: u64 = key.5 as u64;
    let b6: u64 = key.6 as u64;
    let b7: u64 = key.7 as u64;
    assert(priority == b0 * 0x100_0000_0000_0000 + b1 * 0x1_0000_0000_0000 + b2
        * 0x100_0000_0000 + b3 * 0x1_0000_0000 + b4 * 0x100_0000 + b5 * 0x1_0000 + b6 * 0x100
        + b7) by (bit_vector)
        requires
            b0 == priority / 0x100_0000_0000_0000 % 0x100,
            b1 == priority / 0x1_0000_0000_0000 % 0x100,
            b2 == priority / 0x100_0000_0000 % 0x100,
            b3 == priority / 0x1_0000_0000 % 0x100,
            b4 == priority / 0x100_0000 % 0x100,
            b5 == priority / 0x1_0000 % 0x100,
            b6 == priority / 0x100 % 0x100,
            b7 == priority % 0x100,
    ;
}

/// Every key is the key of the priority it spells.
pub proof fn lemma_key_of_key_priority(key: Key)
    ensures
        key_of(key_priority(key)) == key,
{
    lemma_key_priority_of_key(key_priority(key));
    lemma_lex_is_numeric(key_of(key_priority(key)), key);
}

/// Builds the key of `priority`: its eight bytes, most significant first.
pub fn priority_key(priority: u64) -> (key: Key)
    ensures
        key == key_of(priority),
        key_priority(key) == priority,
{
    let b0: u8 = (priority >> 56) as u8;
    let b1: u8 = ((priority >> 48) & 0xff) as u8;
    let b2: u8 = ((priority >> 40) & 0xff) as u8;
    let b3: u8 = ((priority >> 32) & 0xff) as u8;
    let b4: u8 = ((priority >> 24) & 0xff) as u8;
    let b5: u8 = ((priority >> 16) & 0xff) as u8;
    let b6: u8 = ((priority >> 8) & 0xff) as u8;
    let b7: u8 = (priority & 0xff) as u8;
    assert(priority >> 56 == priority / 0x100_0000_0000_0000 % 0x100) by (bit_vector);
    assert((priority >> 48) & 0xff == priority / 0x1_0000_0000_0000 % 0x100) by (bit_vector);
    assert((priority >> 40) & 0xff == priority / 0x100_0000_0000 % 0x100) by (bit_vector);
    assert((priority >> 32) & 0xff == priority / 0x1_0000_0000 % 0x100) by (bit_vector);
    assert((priority >> 24) & 0xff == priority / 0x100_0000 % 0x100) by (bit_vector);
    assert((priority >> 16) & 0xff == priority / 0x1_0000 % 0x100) by (bit_vector);
    assert((priority >> 8) & 0xff == priority / 0x100 % 0x100) by (bit_vector);
    assert(priority & 0xff == priority % 0x100) by (bit_vector);
    proof {
        lemma_key_priority_of_key(priority);
    }
    (b0, b1, b2, b3, b4, b5, b6, b7)
}

/// The store read by priority: under each priority, the value under its
/// key.
pub open spec fn by_priority(store: Map<Key, Vec<u8>>) -> Map<u64, Vec<u8>> {
    Map::new(
        |priority: u64| store.contains_key(key_of(priority)),
        |priority: u64| store[key_of(priority)],
    )
}

/// A key is in the store exactly when its priority is, with the same
/// value.
pub proof fn lemma_by_priority_get(store: Map<Key, Vec<u8>>, key: Key)
    ensures
        store.contains_key(key) <==> by_priority(store).contains_key(key_priority(key)),
        store.contains_key(key) ==> by_priority(store)[key_priority(key)] == store[key],
{
    lemma_key_of_key_priority(key);
}

/// Putting a value under a key puts it under the key's priority.
pub proof fn lemma_by_priority_insert(store: Map<Key, Vec<u8>>, key: Key, value: Vec<u8>)
    ensures
        by_priority(store.insert(key, value)) == by_priority(store).insert(
            key_priority(key),
            value,
        ),
{
    lemma_key_of_key_priority(key);
    assert forall|priority: u64| key_of(priority) == key <==> priority == key_priority(key) by {
        lemma_key_priority_of_key(priority);
    }
    assert(by_priority(store.insert(key, value)) =~= by_priority(store).insert(
        key_priority(key),
        value,
    ));
}

/// Removing a key removes its priority.
pub proof fn lemma_by_priority_remove(store: Map<Key, Vec<u8>>, key: Key)
    ensures
        by_priority(store.remove(key)) == by_priority(store).remove(key_priority(key)),
{
    lemma_key_of_key_priority(key);
    assert forall|priority: u64| key_of(priority) == key <==> priority == key_priority(key) by {
        lemma_key_priority_of_key(priority);
    }
}

/// The entry under the last key of `store`, by
/// `BTreeMap::last_key_value`: a key of the map that stands before no
/// key of the map in the store's order, with the value under it; or
/// `None` for a map without keys. This is taken from the documentation of
/// `BTreeMap`, not proved.
#[verifier::external_body]
pub(crate) fn max_entry(store: &KeyValueStore) -> (entry: Option<(&Key, &Vec<u8>)>)
    ensures
        match entry {
            Some((key, value)) => {
                &&& store@.contains_key(*key)
                &&& store@[*key] == *value
                &&& forall|other: Key| store@.contains_key(other) ==> !key_less(*key, other)
            },
            None => forall|key: Key| !store@.contains_key(key),
        },
{
    store.last_key_value()
}

/// The last key of the store is that of the highest priority.
pub proof fn lemma_last_key_is_highest(store: Map<Key, Vec<u8>>, last: Key)
    requires
        forall|other: Key| store.contains_key(other) ==> !key_less(last, other),
    ensures
        forall|priority: u64|
            by_priority(store).contains_key(priority) ==> priority <= key_priority(last),
{
    assert forall|priority: u64| by_priority(store).contains_key(priority) implies priority
        <= key_priority(last) by {
        lemma_key_order(last, key_of(priority));
        lemma_key_priority_of_key(priority);
    }
}

/// The priorities of the pairs that a walk over the store hands out.
pub open spec fn priorities_of(pairs: Seq<(&Key, &Vec<u8>)>) -> Seq<u64> {
    pairs.map_values(|pair: (&Key, &Vec<u8>)| key_priority(*pair.0))
}

/// The keys of the pairs that a walk over the store hands out.
pub open spec fn keys_of(pairs: Seq<(&Key, &Vec<u8>)>) -> Seq<Key> {
    pairs.map_values(|pair: (&Key, &Vec<u8>)| *pair.0)
}

/// Keys that the store hands out in its own order spell priorities that
/// rise strictly.
pub proof fn lemma_increasing_keys(keys: Seq<Key>)
    requires
        increasing_seq(keys),
    ensures
        forall|i: int, j: int|
            0 <= i < j < keys.len() ==> key_priority(keys[i]) < key_priority(keys[j]),
{
    broadcast use vstd::laws_cmp::group_laws_cmp;

    assert forall|i: int, j: int| 0 <= i < j < keys.len() implies key_priority(keys[i])
        < key_priority(keys[j]) by {
        lemma_key_order(keys[i], keys[j]);
    }
}

/// A walk over the store in its own order hands out every priority
/// present, once, in ascending order, each with the value stored under
/// it.
pub proof fn lemma_walk_in_order(store: &KeyValueStore, pairs: Seq<(&Key, &Vec<u8>)>)
    requires
        pairs == spec_btree_map_iter(store).remaining(),
        increasing_seq(keys_of(pairs)),
    ensures
        priorities_in_order(by_priority(store@), priorities_of(pairs)),
        forall|i: int|
            0 <= i < pairs.len() ==> by_priority(store@)[priorities_of(pairs)[i]]
                == *(#[trigger] pairs[i]).1,
{
    let keys = keys_of(pairs);
    let priorities = priorities_of(pairs);
    let tiers = by_priority(store@);
    lemma_increasing_keys(keys);
    assert forall|i: int, j: int| 0 <= i < j < priorities.len() implies priorities[i]
        < priorities[j] by {
        assert(key_priority(keys[i]) < key_priority(keys[j]));
    }
    assert forall|i: int| 0 <= i < priorities.len() implies tiers.contains_key(
        #[trigger] priorities[i],
    ) by {
        lemma_by_priority_get(store@, *pairs[i].0);
    }
    assert forall|priority: u64| #[trigger] tiers.contains_key(priority) implies exists|i: int|
        0 <= i < priorities.len() && priorities[i] == priority by {
        let key = key_of(priority);
        lemma_key_priority_of_key(priority);
        assert(pairs.contains((&key, &store@[key])));
        let i = choose|i: int| 0 <= i < pairs.len() && pairs[i] == (&key, &store@[key]);
        assert(priorities[i] == priority);
    }
    assert forall|i: int| 0 <= i < pairs.len() implies tiers[priorities[i]]
        == *(#[trigger] pairs[i]).1 by {
        lemma_by_priority_get(store@, *pairs[i].0);
    }
}

} // verus!
