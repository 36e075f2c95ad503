//! How the queue lies in the store: under each priority present, one
//! tier, the packed list of the elements of that priority.
//!
//! The store is read here by priority, as a map from each priority
//! present to the value under its priority.

use crate::model::{dequeue, enqueue, front, ordered, tally};
use crate::model::{lemma_tally_all, lemma_tally_concat, lemma_tally_none};
use crate::packed::{elements_of, is_packed};
use vstd::prelude::*;

verus! {

/// One more than the highest priority.
pub open spec fn priority_limit() -> int {
    u64::MAX + 1
}

/// Whether every value is the packed form of a list with at least one
/// element.
pub open spec fn well_stored(tiers: Map<u64, Vec<u8>>) -> bool {
    forall|priority: u64| #[trigger]
        tiers.contains_key(priority) ==> {
            &&& is_packed(tiers[priority]@)
            &&& elements_of(tiers[priority]@).len() >= 1
        }
}

/// The elements stored under `priority`, oldest first; none where the
/// priority is absent.
pub open spec fn tier(tiers: Map<u64, Vec<u8>>, priority: u64) -> Seq<Seq<u8>> {
    if tiers.contains_key(priority) {
        elements_of(tiers[priority]@)
    } else {
        Seq::empty()
    }
}

/// The elements stored under `priority`, each with the priority.
pub open spec fn tier_entries(tiers: Map<u64, Vec<u8>>, priority: u64) -> Seq<(u64, Seq<u8>)> {
    tier(tiers, priority).map_values(|element: Seq<u8>| (priority, element))
}

/// The entries stored under the priorities from `lo` up to, not
/// including, `hi`, in ascending priority.
pub open spec fn entries_between(tiers: Map<u64, Vec<u8>>, lo: int, hi: int) -> Seq<
    (u64, Seq<u8>),
>
    decreases hi - lo,
{
    if hi <= lo {
        Seq::empty()
    } else {
        entries_between(tiers, lo, hi - 1) + tier_entries(tiers, (hi - 1) as u64)
    }
}

/// All entries stored, in ascending priority.
pub open spec fn entries_of(tiers: Map<u64, Vec<u8>>) -> Seq<(u64, Seq<u8>)> {
    entries_between(tiers, 0, priority_limit())
}

/// A range of priorities can be cut in two.
pub proof fn lemma_entries_split(tiers: Map<u64, Vec<u8>>, lo: int, mid: int, hi: int)
    requires
        lo <= mid <= hi,
    ensures
        entries_between(tiers, lo, hi) == entries_between(tiers, lo, mid) + entries_between(
            tiers,
            mid,
            hi,
        ),
    decreases hi - mid,
{
    if mid == hi {
        assert(entries_between(tiers, lo, hi) =~= entries_between(tiers, lo, mid)
            + entries_between(tiers, mid, hi));
    } else {
        lemma_entries_split(tiers, lo, mid, hi - 1);
        assert(entries_between(tiers, lo, hi) =~= entries_between(tiers, lo, mid)
            + entries_between(tiers, mid, hi));
    }
}

/// The entries of a range of priorities carry priorities of that range,
/// and stand in ascending priority.
pub proof fn lemma_entries_in_range(tiers: Map<u64, Vec<u8>>, lo: int, hi: int)
    requires
        0 <= lo <= hi <= priority_limit(),
    ensures
        forall|i: int|
            0 <= i < entries_between(tiers, lo, hi).len() ==> lo <= (#[trigger] entries_between(
                tiers,
                lo,
                hi,
            )[i]).0 < hi,
        ordered(entries_between(tiers, lo, hi)),
    decreases hi - lo,
{
    if lo < hi {
        lemma_entries_in_range(tiers, lo, hi - 1);
        let below = entries_between(tiers, lo, hi - 1);
        let top = tier_entries(tiers, (hi - 1) as u64);
        let all = entries_between(tiers, lo, hi);
        assert forall|i: int| 0 <= i < all.len() implies lo <= (#[trigger] all[i]).0 < hi by {
            if i < below.len() {
                assert(all[i] == below[i]);
            } else {
                assert(all[i] == top[i - below.len()]);
            }
        }
        assert forall|i: int, j: int| 0 <= i <= j < all.len() implies all[i].0 <= all[j].0 by {
            if j < below.len() {
                assert(all[j] == below[j]);
            } else {
                if i < below.len() {
                    assert(all[i] == below[i]);
                } else {
                    assert(all[i] == top[i - below.len()]);
                }
            }
        }
    }
}

/// Two stores that hold the same elements under every priority of a
/// range have the same entries in that range.
pub proof fn lemma_entries_agree(
    tiers: Map<u64, Vec<u8>>,
    other: Map<u64, Vec<u8>>,
    lo: int,
    hi: int,
)
    requires
        0 <= lo <= hi <= priority_limit(),
        forall|priority: u64|
            lo <= priority < hi ==> tier(tiers, priority) == tier(other, priority),
    ensures
        entries_between(tiers, lo, hi) == entries_between(other, lo, hi),
    decreases hi - lo,
{
    if lo < hi {
        lemma_entries_agree(tiers, other, lo, hi - 1);
    }
}

/// A range of priorities under which nothing is stored has no entries.
pub proof fn lemma_entries_absent(tiers: Map<u64, Vec<u8>>, lo: int, hi: int)
    requires
        0 <= lo <= hi <= priority_limit(),
        forall|priority: u64| lo <= priority < hi ==> tier(tiers, priority).len() == 0,
    ensures
        entries_between(tiers, lo, hi) == Seq::<(u64, Seq<u8>)>::empty(),
    decreases hi - lo,
{
    if lo < hi {
        lemma_entries_absent(tiers, lo, hi - 1);
    }
}

/// The entries stored are those below `priority`, those of `priority`,
/// and those above it.
pub proof fn lemma_entries_around(tiers: Map<u64, Vec<u8>>, priority: u64)
    ensures
        entries_of(tiers) == entries_between(tiers, 0, priority as int) + tier_entries(
            tiers,
            priority,
        ) + entries_between(tiers, priority + 1, priority_limit()),
        entries_between(tiers, 0, priority + 1) == entries_between(tiers, 0, priority as int)
            + tier_entries(tiers, priority),
{
    lemma_entries_split(tiers, 0, priority + 1, priority_limit());
}

/// The entries stored stand in ascending priority.
pub proof fn lemma_entries_ordered(tiers: Map<u64, Vec<u8>>)
    ensures
        ordered(entries_of(tiers)),
{
    lemma_entries_in_range(tiers, 0, priority_limit());
}

/// Among the entries there are as many of a priority as the store holds
/// under it, and as many up to a priority as the store holds under the
/// priorities up to it.
pub proof fn lemma_tally_of_entries(tiers: Map<u64, Vec<u8>>, priority: u64)
    ensures
        tally(entries_of(tiers), priority, priority) == tier(tiers, priority).len(),
        tally(entries_of(tiers), 0, priority) == entries_between(tiers, 0, priority + 1).len(),
{
    let below = entries_between(tiers, 0, priority as int);
    let here = tier_entries(tiers, priority);
    let above = entries_between(tiers, priority + 1, priority_limit());
    lemma_entries_around(tiers, priority);
    lemma_entries_in_range(tiers, 0, priority as int);
    lemma_entries_in_range(tiers, priority + 1, priority_limit());
    lemma_tally_concat(below + here, above, priority, priority);
    lemma_tally_concat(below, here, priority, priority);
    lemma_tally_none(below, priority, priority);
    lemma_tally_all(here, priority, priority);
    lemma_tally_none(above, priority, priority);
    lemma_tally_concat(below + here, above, 0, priority);
    lemma_tally_concat(below, here, 0, priority);
    lemma_tally_all(below, 0, priority);
    lemma_tally_all(here, 0, priority);
    lemma_tally_none(above, 0, priority);
}

/// Storing under `priority` a list that is the old one with `element`
/// appended is the queue's insert.
pub proof fn lemma_store_enqueue(
    tiers: Map<u64, Vec<u8>>,
    priority: u64,
    value: Vec<u8>,
    element: Seq<u8>,
)
    requires
        elements_of(value@) == tier(tiers, priority).push(element),
    ensures
        entries_of(tiers.insert(priority, value)) == enqueue(
            entries_of(tiers),
            priority,
            element,
        ),
{
    let after = tiers.insert(priority, value);
    let below = entries_between(tiers, 0, priority as int);
    let here = tier_entries(tiers, priority);
    let above = entries_between(tiers, priority + 1, priority_limit());
    lemma_entries_around(tiers, priority);
    lemma_entries_around(after, priority);
    lemma_entries_agree(tiers, after, 0, priority as int);
    lemma_entries_agree(tiers, after, priority + 1, priority_limit());
    lemma_tally_of_entries(tiers, priority);
    assert(entries_of(after) =~= (below + here + above).insert(
        (below + here).len() as int,
        (priority, element),
    ));
}

/// Where `priority` is the highest present and its list is not empty,
/// the element served next is the last of that list.
pub proof fn lemma_store_front(tiers: Map<u64, Vec<u8>>, priority: u64)
    requires
        forall|other: u64| tiers.contains_key(other) ==> other <= priority,
        tier(tiers, priority).len() >= 1,
    ensures
        entries_of(tiers) == entries_between(tiers, 0, priority as int) + tier_entries(
            tiers,
            priority,
        ),
        entries_of(tiers).len() >= 1,
        entries_of(tiers).last() == (priority, tier(tiers, priority).last()),
        front(entries_of(tiers)) == Some(tier(tiers, priority).last()),
{
    lemma_entries_around(tiers, priority);
    lemma_entries_absent(tiers, priority + 1, priority_limit());
}

/// Where `priority` is the highest present, storing its list without the
/// last element, or removing the priority where the list had only one,
/// is the queue's pop.
pub proof fn lemma_store_dequeue(
    tiers: Map<u64, Vec<u8>>,
    after: Map<u64, Vec<u8>>,
    priority: u64,
)
    requires
        forall|other: u64| tiers.contains_key(other) ==> other <= priority,
        tier(tiers, priority).len() >= 1,
        tier(after, priority) == tier(tiers, priority).drop_last(),
        forall|other: u64| other != priority ==> tier(after, other) == tier(tiers, other),
    ensures
        entries_of(after) == dequeue(entries_of(tiers)),
{
    lemma_store_front(tiers, priority);
    lemma_entries_around(after, priority);
    lemma_entries_agree(tiers, after, 0, priority as int);
    lemma_entries_agree(tiers, after, priority + 1, priority_limit());
    lemma_entries_absent(tiers, priority + 1, priority_limit());
}

/// Whether `priorities` are the priorities present in `tiers`, each
/// once, in ascending order.
pub open spec fn priorities_in_order(tiers: Map<u64, Vec<u8>>, priorities: Seq<u64>) -> bool {
    &&& forall|i: int, j: int| 0 <= i < j < priorities.len() ==> priorities[i] < priorities[j]
    &&& forall|i: int| 0 <= i < priorities.len() ==> tiers.contains_key(#[trigger] priorities[i])
    &&& forall|priority: u64| #[trigger]
        tiers.contains_key(priority) ==> exists|i: int|
            0 <= i < priorities.len() && priorities[i] == priority
}

/// The lowest priority that can still follow once the first `visited`
/// of `priorities` have been seen.
pub open spec fn reach(priorities: Seq<u64>, visited: int) -> int {
    if visited <= 0 {
        0
    } else {
        priorities[visited - 1] + 1
    }
}

/// Walking the priorities in ascending order, the entries up to the one
/// just seen are those up to the one seen before it and the elements
/// under the one just seen; and the entries seen so far are never more
/// than all.
pub proof fn lemma_walk_step(tiers: Map<u64, Vec<u8>>, priorities: Seq<u64>, visited: int)
    requires
        priorities_in_order(tiers, priorities),
        0 <= visited < priorities.len(),
    ensures
        entries_between(tiers, 0, reach(priorities, visited + 1)).len() == entries_between(
            tiers,
            0,
            reach(priorities, visited),
        ).len() + tier(tiers, priorities[visited]).len(),
        entries_between(tiers, 0, reach(priorities, visited + 1)).len() <= entries_of(tiers).len(),
{
    let priority = priorities[visited];
    let lo = reach(priorities, visited);
    assert(lo <= priority) by {
        if visited > 0 {
            assert(priorities[visited - 1] < priorities[visited]);
        }
    }
    assert forall|other: u64| lo <= other < priority implies tier(tiers, other).len() == 0 by {
        if tiers.contains_key(other) {
            let i = choose|i: int| 0 <= i < priorities.len() && priorities[i] == other;
            if i < visited {
                if i < visited - 1 {
                    assert(priorities[i] < priorities[visited - 1]);
                }
            } else if i > visited {
                assert(priorities[visited] < priorities[i]);
            }
        }
    }
    lemma_entries_absent(tiers, lo, priority as int);
    lemma_entries_split(tiers, 0, lo, priority as int);
    lemma_entries_split(tiers, 0, priority + 1, priority_limit());
}

/// Once every priority has been seen, the entries seen are all the
/// entries.
pub proof fn lemma_walk_done(tiers: Map<u64, Vec<u8>>, priorities: Seq<u64>)
    requires
        priorities_in_order(tiers, priorities),
    ensures
        entries_between(tiers, 0, reach(priorities, priorities.len() as int)) == entries_of(tiers),
{
    let lo = reach(priorities, priorities.len() as int);
    assert forall|other: u64| lo <= other < priority_limit() implies tier(tiers, other).len()
        == 0 by {
        if tiers.contains_key(other) {
            let i = choose|i: int| 0 <= i < priorities.len() && priorities[i] == other;
            if i < priorities.len() - 1 {
                assert(priorities[i] < priorities[priorities.len() - 1]);
            }
        }
    }
    lemma_entries_absent(tiers, lo, priority_limit());
    lemma_entries_split(tiers, 0, lo, priority_limit());
    assert(entries_between(tiers, 0, lo) + Seq::<(u64, Seq<u8>)>::empty() =~= entries_between(
        tiers,
        0,
        lo,
    ));
}

/// A well-formed store has no entries exactly when nothing is stored
/// under any priority.
pub proof fn lemma_store_empty(tiers: Map<u64, Vec<u8>>)
    requires
        well_stored(tiers),
    ensures
        entries_of(tiers).len() == 0 <==> forall|priority: u64| !tiers.contains_key(priority),
{
    if forall|priority: u64| !tiers.contains_key(priority) {
        lemma_entries_absent(tiers, 0, priority_limit());
    } else {
        let priority = choose|priority: u64| tiers.contains_key(priority);
        lemma_entries_around(tiers, priority);
    }
}

} // verus!
