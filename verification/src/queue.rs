//! The priority queue, and its implementation over the ordered store.
//!
//! Every operation is a few reads and at most one write of the store,
//! with the packed value parsed or rebuilt by hand in between.

use crate::layout::{entries_between, entries_of, priorities_in_order, reach, tier, well_stored};
use crate::layout::{lemma_entries_ordered, lemma_store_dequeue, lemma_store_empty};
use crate::layout::{lemma_store_enqueue, lemma_store_front, lemma_tally_of_entries};
use crate::layout::{lemma_walk_done, lemma_walk_step};
use crate::model::{dequeue, enqueue, front, lemma_enqueue_len, ordered, tally};
use crate::packed::{append, element_count, encode, last_element, payloads, remove_last};
use crate::store::{by_priority, key_priority, keys_of, max_entry, priorities_of, priority_key};
use crate::store::{lemma_by_priority_get, lemma_by_priority_insert, lemma_by_priority_remove};
use crate::store::{lemma_last_key_is_highest, lemma_walk_in_order, Key, KeyValueStore};
use std::collections::BTreeMap;
use vstd::prelude::*;
use vstd::slice::slice_to_vec;
use vstd::std_specs::iter::IteratorSpec;

verus! {

/// What an optional element holds, as a plain value.
pub open spec fn payload<Element: View>(element: Option<Element>) -> Option<Element::V> {
    match element {
        Some(element) => Some(element@),
        None => None,
    }
}

/// A queue that serves the element of the highest priority first and,
/// among elements of one priority, the one that joined last.
pub trait PriorityQueue<Element: View>: Sized {
    /// The entries of the queue, each a priority with an element, in
    /// ascending priority and, within one priority, oldest first. The
    /// last entry is served next.
    spec fn entries(&self) -> Seq<(u64, Element::V)>;

    /// Whether the queue can take `element` at `priority`: the limits of
    /// the implementation, which `insert` asks its caller to keep.
    spec fn accepts(&self, element: &Element, priority: u64) -> bool;

    /// The entries stand in ascending priority, in every state.
    proof fn lemma_ordered(&self)
        ensures
            ordered(self.entries()),
    ;

    /// Creates a queue with no elements.
    fn new() -> (queue: Self)
        ensures
            queue.entries() == Seq::<(u64, Element::V)>::empty(),
    ;

    /// Whether the queue has no elements.
    fn is_empty(&self) -> (empty: bool)
        ensures
            empty == (self.entries().len() == 0),
    ;

    /// The number of elements in the queue: every element inserted and
    /// not yet served counts, whether or not priorities or payloads
    /// repeat.
    fn size(&self) -> (size: usize)
        ensures
            size == self.entries().len(),
    ;

    /// The element that `pop` would serve, or `None` for an empty queue.
    /// The queue stays as it is.
    fn peek(&self) -> (top: Option<Element>)
        ensures
            payload(top) == front(self.entries()),
    ;

    /// Adds `element` at `priority`. It is always added, behind the
    /// elements already at that priority; an equal payload or an equal
    /// priority already present makes no difference.
    fn insert(&mut self, element: Element, priority: u64)
        requires
            old(self).accepts(&element, priority),
        ensures
            final(self).entries() == enqueue(old(self).entries(), priority, element@),
            final(self).entries().len() == old(self).entries().len() + 1,
    ;

    /// Removes and returns the element of the highest priority and, among
    /// those, the one that joined last; `None` for an empty queue, which
    /// stays empty.
    fn pop(&mut self) -> (top: Option<Element>)
        ensures
            payload(top) == front(old(self).entries()),
            final(self).entries() == dequeue(old(self).entries()),
    ;
}

/// A priority queue of byte strings, kept in an ordered key-value store:
/// one key for each priority present, and under it the packed list of
/// the elements of that priority.
pub struct PriorityQueueImpl(KeyValueStore);

impl PriorityQueueImpl {
    /// Every value in the store is the packed form of a list that is not
    /// empty, and the elements are few enough to be counted.
    #[verifier::type_invariant]
    spec fn well_formed(self) -> bool {
        &&& well_stored(by_priority(self.0@))
        &&& entries_of(by_priority(self.0@)).len() <= usize::MAX
    }

    /// Whether `insert` can take `element` at `priority`, found out by
    /// looking: the length of the element, the count of its priority, and
    /// the size of the queue.
    pub fn can_insert(&self, element: &Vec<u8>, priority: u64) -> (ok: bool)
        ensures
            ok == self.accepts(element, priority),
    {
        let key: Key = priority_key(priority);
        proof {
            use_type_invariant(self);
            lemma_tally_of_entries(by_priority(self.0@), priority);
            lemma_by_priority_get(self.0@, key);
        }
        if element.len() > u32::MAX as usize {
            return false;
        }
        let room: bool = match self.0.get(&key) {
            None => true,
            Some(existing) => element_count(existing.as_slice()) < u32::MAX,
        };
        room && self.size() < usize::MAX
    }
}

impl PriorityQueue<Vec<u8>> for PriorityQueueImpl {
    closed spec fn entries(&self) -> Seq<(u64, Seq<u8>)> {
        entries_of(by_priority(self.0@))
    }

    /// An element can join while its length fits in a 32-bit length
    /// field, the count of its priority, one more, fits in a 32-bit count
    /// field, and the size of the queue, one more, fits in a `usize`.
    open spec fn accepts(&self, element: &Vec<u8>, priority: u64) -> bool {
        &&& element@.len() <= u32::MAX
        &&& tally(self.entries(), priority, priority) < u32::MAX
        &&& self.entries().len() < usize::MAX
    }

    proof fn lemma_ordered(&self) {
        lemma_entries_ordered(by_priority(self.0@));
    }

    fn new() -> (queue: Self) {
        let store: KeyValueStore = BTreeMap::new();
        proof {
            lemma_store_empty(by_priority(store@));
        }
        PriorityQueueImpl(store)
    }

    fn is_empty(&self) -> (empty: bool) {
        proof {
            use_type_invariant(self);
            lemma_store_empty(by_priority(self.0@));
            assert forall|key: Key| self.0@.contains_key(key) implies by_priority(
                self.0@,
            ).contains_key(key_priority(key)) by {
                lemma_by_priority_get(self.0@, key);
            }
        }
        self.0.is_empty()
    }

    fn size(&self) -> (size: usize) {
        proof {
            use_type_invariant(self);
        }
        let ghost tiers = by_priority(self.0@);
        let mut size: usize = 0;
        let walk = self.0.iter();
        proof {
            assert(keys_of(walk.remaining()) =~= walk.remaining().map_values(
                |pair: (&Key, &Vec<u8>)| *pair.0,
            ));
            lemma_walk_in_order(&self.0, walk.remaining());
        }
        let ghost pairs = walk.remaining();
        let ghost priorities = priorities_of(pairs);
        for pair in seen: walk
            invariant
                seen.seq() == pairs,
                priorities == priorities_of(pairs),
                priorities_in_order(tiers, priorities),
                forall|i: int|
                    0 <= i < pairs.len() ==> tiers[priorities[i]] == *(#[trigger] pairs[i]).1,
                well_stored(tiers),
                entries_of(tiers).len() <= usize::MAX,
                size == entries_between(tiers, 0, reach(priorities, seen.index())).len(),
        {
            let (_, value) = pair;
            proof {
                lemma_walk_step(tiers, priorities, seen.index());
            }
            size += element_count(value.as_slice()) as usize;
        }
        proof {
            lemma_walk_done(tiers, priorities);
        }
        size
    }

    fn peek(&self) -> (top: Option<Vec<u8>>) {
        proof {
            use_type_invariant(self);
            lemma_store_empty(by_priority(self.0@));
        }
        match max_entry(&self.0) {
            None => None,
            Some((key, value)) => {
                proof {
                    lemma_by_priority_get(self.0@, *key);
                    lemma_last_key_is_highest(self.0@, *key);
                    lemma_store_front(by_priority(self.0@), key_priority(*key));
                }
                Some(slice_to_vec(last_element(value.as_slice())))
            },
        }
    }

    fn insert(&mut self, element: Vec<u8>, priority: u64) {
        let key: Key = priority_key(priority);
        let ghost tiers = by_priority(self.0@);
        proof {
            use_type_invariant(&*self);
            lemma_tally_of_entries(tiers, priority);
            lemma_by_priority_get(self.0@, key);
        }
        let value: Vec<u8> = match self.0.get(&key) {
            None => {
                let list: Vec<Vec<u8>> = vec![element];
                proof {
                    assert(payloads(list@) =~= tier(tiers, priority).push(element@));
                }
                encode(list.as_slice())
            },
            Some(existing) => append(existing.as_slice(), element.as_slice()),
        };
        proof {
            lemma_store_enqueue(tiers, priority, value, element@);
            lemma_by_priority_insert(self.0@, key, value);
            lemma_enqueue_len(entries_of(tiers), priority, element@);
        }
        let mut store: KeyValueStore = BTreeMap::new();
        proof {
            lemma_store_empty(by_priority(store@));
        }
        std::mem::swap(&mut store, &mut self.0);
        store.insert(key, value);
        self.0 = store;
    }

    fn pop(&mut self) -> (top: Option<Vec<u8>>) {
        proof {
            use_type_invariant(&*self);
            lemma_store_empty(by_priority(self.0@));
        }
        let (key, removed): (Key, (Vec<u8>, Option<Vec<u8>>)) = match max_entry(&self.0) {
            None => {
                return None;
            },
            Some((key, value)) => {
                proof {
                    lemma_by_priority_get(self.0@, *key);
                }
                (*key, remove_last(value.as_slice()))
            },
        };
        let ghost before = by_priority(self.0@);
        let ghost priority = key_priority(key);
        proof {
            lemma_last_key_is_highest(self.0@, key);
            lemma_store_front(before, priority);
        }
        let mut store: KeyValueStore = BTreeMap::new();
        proof {
            lemma_store_empty(by_priority(store@));
        }
        std::mem::swap(&mut store, &mut self.0);
        match removed.1 {
            None => {
                proof {
                    lemma_by_priority_remove(store@, key);
                }
                store.remove(&key);
            },
            Some(remaining) => {
                proof {
                    lemma_by_priority_insert(store@, key, remaining);
                }
                store.insert(key, remaining);
            },
        }
        proof {
            assert(tier(by_priority(store@), priority) =~= tier(before, priority).drop_last());
            lemma_store_dequeue(before, by_priority(store@), priority);
        }
        self.0 = store;
        Some(removed.0)
    }
}

} // verus!
