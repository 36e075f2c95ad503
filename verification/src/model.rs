//! The queue as a sequence: what the operations mean, and what holds of
//! them.
//!
//! A queue is modelled by its entries, each a priority with an element,
//! in ascending priority and, within one priority, oldest first. The last
//! entry is the one served next.

use vstd::prelude::*;

verus! {

/// Whether the priorities of `entries` never fall from one entry to the
/// next.
pub open spec fn ordered<T>(entries: Seq<(u64, T)>) -> bool {
    forall|i: int, j: int| 0 <= i <= j < entries.len() ==> entries[i].0 <= entries[j].0
}

/// The number of entries whose priority lies in `lo..=hi`.
pub open spec fn tally<T>(entries: Seq<(u64, T)>, lo: u64, hi: u64) -> nat
    decreases entries.len(),
{
    if entries.len() == 0 {
        0
    } else {
        let counted: nat = if lo <= entries.last().0 <= hi {
            1
        } else {
            0
        };
        tally(entries.drop_last(), lo, hi) + counted
    }
}

/// The entries after `element` has joined at `priority`. In ordered
/// entries it stands behind every entry of that priority or a lower one,
/// and before the others.
pub open spec fn enqueue<T>(entries: Seq<(u64, T)>, priority: u64, element: T) -> Seq<(u64, T)> {
    entries.insert(tally(entries, 0, priority) as int, (priority, element))
}

/// The element served next: that of the last entry.
pub open spec fn front<T>(entries: Seq<(u64, T)>) -> Option<T> {
    if entries.len() == 0 {
        None
    } else {
        Some(entries.last().1)
    }
}

/// The entries after the next element has been served.
pub open spec fn dequeue<T>(entries: Seq<(u64, T)>) -> Seq<(u64, T)> {
    if entries.len() == 0 {
        entries
    } else {
        entries.drop_last()
    }
}

/// The entries after each of `items` has joined, in turn.
pub open spec fn enqueue_all<T>(entries: Seq<(u64, T)>, items: Seq<(u64, T)>) -> Seq<(u64, T)>
    decreases items.len(),
{
    if items.len() == 0 {
        entries
    } else {
        enqueue(enqueue_all(entries, items.drop_last()), items.last().0, items.last().1)
    }
}

/// The entries in the order in which they are served when the queue is
/// emptied.
pub open spec fn drained<T>(entries: Seq<(u64, T)>) -> Seq<(u64, T)>
    decreases entries.len(),
{
    if entries.len() == 0 {
        Seq::empty()
    } else {
        seq![entries.last()] + drained(dequeue(entries))
    }
}

/// A tally never counts more entries than there are.
pub proof fn lemma_tally_bound<T>(entries: Seq<(u64, T)>, lo: u64, hi: u64)
    ensures
        tally(entries, lo, hi) <= entries.len(),
    decreases entries.len(),
{
    if entries.len() > 0 {
        lemma_tally_bound(entries.drop_last(), lo, hi);
    }
}

/// The tally of two runs of entries laid end to end is the sum of their
/// tallies.
pub proof fn lemma_tally_concat<T>(left: Seq<(u64, T)>, right: Seq<(u64, T)>, lo: u64, hi: u64)
    ensures
        tally(left + right, lo, hi) == tally(left, lo, hi) + tally(right, lo, hi),
    decreases right.len(),
{
    if right.len() == 0 {
        assert(left + right =~= left);
    } else {
        lemma_tally_concat(left, right.drop_last(), lo, hi);
        assert((left + right).drop_last() =~= left + right.drop_last());
    }
}

/// Where every priority lies in the range, every entry is counted.
pub proof fn lemma_tally_all<T>(entries: Seq<(u64, T)>, lo: u64, hi: u64)
    requires
        forall|i: int| 0 <= i < entries.len() ==> lo <= (#[trigger] entries[i]).0 <= hi,
    ensures
        tally(entries, lo, hi) == entries.len(),
    decreases entries.len(),
{
    if entries.len() > 0 {
        lemma_tally_all(entries.drop_last(), lo, hi);
    }
}

/// Where no priority lies in the range, no entry is counted.
pub proof fn lemma_tally_none<T>(entries: Seq<(u64, T)>, lo: u64, hi: u64)
    requires
        forall|i: int| 0 <= i < entries.len() ==> !(lo <= (#[trigger] entries[i]).0 <= hi),
    ensures
        tally(entries, lo, hi) == 0,
    decreases entries.len(),
{
    if entries.len() > 0 {
        lemma_tally_none(entries.drop_last(), lo, hi);
    }
}

/// In ordered entries, those of priority at most `priority` are the first
/// so many, and all behind them have a higher priority.
pub proof fn lemma_tally_splits<T>(entries: Seq<(u64, T)>, priority: u64)
    requires
        ordered(entries),
    ensures
        tally(entries, 0, priority) <= entries.len(),
        forall|i: int|
            0 <= i < tally(entries, 0, priority) ==> (#[trigger] entries[i]).0 <= priority,
        forall|i: int|
            tally(entries, 0, priority) <= i < entries.len() ==> (#[trigger] entries[i]).0
                > priority,
    decreases entries.len(),
{
    if entries.len() > 0 {
        let shorter = entries.drop_last();
        let last = entries.len() - 1;
        if entries[last].0 <= priority {
            assert forall|i: int| 0 <= i < entries.len() implies 0 <= (#[trigger] entries[i]).0
                <= priority by {
                assert(entries[i].0 <= entries[last].0);
            }
            lemma_tally_all(entries, 0, priority);
        } else {
            assert(ordered(shorter)) by {
                assert forall|i: int, j: int| 0 <= i <= j < shorter.len() implies shorter[i].0
                    <= shorter[j].0 by {
                    assert(entries[i].0 <= entries[j].0);
                }
            }
            lemma_tally_splits(shorter, priority);
            let slot = tally(shorter, 0, priority);
            assert forall|i: int| 0 <= i < slot implies (#[trigger] entries[i]).0 <= priority by {
                assert(shorter[i].0 <= priority);
            }
            assert forall|i: int| slot <= i < entries.len() implies (#[trigger] entries[i]).0
                > priority by {
                if i < last {
                    assert(shorter[i].0 > priority);
                }
            }
        }
    }
}

/// Every insert adds exactly one entry: none is dropped, whether or not
/// the priority is already present.
pub proof fn lemma_enqueue_len<T>(entries: Seq<(u64, T)>, priority: u64, element: T)
    ensures
        enqueue(entries, priority, element).len() == entries.len() + 1,
{
    lemma_tally_bound(entries, 0, priority);
}

/// After any run of inserts the queue holds as many entries more as there
/// were inserts, whatever priorities repeat among them.
pub proof fn lemma_enqueue_all_len<T>(entries: Seq<(u64, T)>, items: Seq<(u64, T)>)
    ensures
        enqueue_all(entries, items).len() == entries.len() + items.len(),
    decreases items.len(),
{
    if items.len() > 0 {
        lemma_enqueue_all_len(entries, items.drop_last());
        lemma_enqueue_len(
            enqueue_all(entries, items.drop_last()),
            items.last().0,
            items.last().1,
        );
    }
}

/// A queue is empty exactly when it has no element to serve; serving from
/// an empty queue leaves it empty.
pub proof fn lemma_empty_iff_no_front<T>(entries: Seq<(u64, T)>)
    ensures
        entries.len() == 0 <==> front(entries) is None,
        entries.len() == 0 ==> dequeue(entries) == entries,
        entries.len() > 0 ==> dequeue(entries).len() == entries.len() - 1,
{
}

/// An insert into ordered entries puts the new entry behind every entry
/// of the same or a lower priority and before every entry of a higher
/// one, moves no other entry past another, and leaves the entries
/// ordered.
pub proof fn lemma_enqueue_position<T>(entries: Seq<(u64, T)>, priority: u64, element: T)
    requires
        ordered(entries),
    ensures
        ordered(enqueue(entries, priority, element)),
        ({
            let slot = tally(entries, 0, priority) as int;
            let after = enqueue(entries, priority, element);
            &&& 0 <= slot <= entries.len()
            &&& after[slot] == (priority, element)
            &&& forall|i: int| 0 <= i < slot ==> after[i] == entries[i] && entries[i].0 <= priority
            &&& forall|i: int|
                slot <= i < entries.len() ==> after[i + 1] == entries[i] && entries[i].0 > priority
        }),
{
    lemma_tally_splits(entries, priority);
    let slot = tally(entries, 0, priority) as int;
    let after = enqueue(entries, priority, element);
    assert forall|i: int, j: int| 0 <= i <= j < after.len() implies after[i].0 <= after[j].0 by {
        if i < slot {
            assert(after[i] == entries[i]);
        } else if i > slot {
            assert(after[i] == entries[i - 1]);
        }
        if j < slot {
            assert(after[j] == entries[j]);
        } else if j > slot {
            assert(after[j] == entries[j - 1]);
        }
    }
}

/// Any run of inserts into ordered entries leaves the entries ordered.
pub proof fn lemma_enqueue_all_ordered<T>(entries: Seq<(u64, T)>, items: Seq<(u64, T)>)
    requires
        ordered(entries),
    ensures
        ordered(enqueue_all(entries, items)),
    decreases items.len(),
{
    if items.len() > 0 {
        lemma_enqueue_all_ordered(entries, items.drop_last());
        lemma_enqueue_position(
            enqueue_all(entries, items.drop_last()),
            items.last().0,
            items.last().1,
        );
    }
}

/// Serving the next element leaves ordered entries ordered.
pub proof fn lemma_dequeue_ordered<T>(entries: Seq<(u64, T)>)
    requires
        ordered(entries),
    ensures
        ordered(dequeue(entries)),
{
}

/// An element that joins at a priority no lower than any present is the
/// next to be served, and serving it gives the queue back as it was: a
/// priority tier is a stack.
pub proof fn lemma_last_in_first_out<T>(entries: Seq<(u64, T)>, priority: u64, element: T)
    requires
        forall|i: int| 0 <= i < entries.len() ==> (#[trigger] entries[i]).0 <= priority,
    ensures
        front(enqueue(entries, priority, element)) == Some(element),
        dequeue(enqueue(entries, priority, element)) == entries,
{
    lemma_tally_all(entries, 0, priority);
}

/// Emptying a queue serves its entries from the last to the first.
pub proof fn lemma_drained_is_reverse<T>(entries: Seq<(u64, T)>)
    ensures
        drained(entries).len() == entries.len(),
        forall|i: int|
            0 <= i < entries.len() ==> drained(entries)[i] == entries[entries.len() - 1 - i],
    decreases entries.len(),
{
    if entries.len() > 0 {
        lemma_drained_is_reverse(dequeue(entries));
    }
}

/// Emptying a queue serves priorities that never rise, and of two
/// entries with one priority the one that joined later is served first.
pub proof fn lemma_drained_order<T>(entries: Seq<(u64, T)>)
    requires
        ordered(entries),
    ensures
        drained(entries).len() == entries.len(),
        forall|i: int, j: int|
            0 <= i <= j < entries.len() ==> drained(entries)[i].0 >= drained(entries)[j].0,
        forall|older: int, newer: int|
            0 <= older < newer < entries.len() && entries[older].0 == entries[newer].0 ==> {
                &&& drained(entries)[entries.len() - 1 - newer] == entries[newer]
                &&& drained(entries)[entries.len() - 1 - older] == entries[older]
                &&& entries.len() - 1 - newer < entries.len() - 1 - older
            },
{
    lemma_drained_is_reverse(entries);
    assert forall|i: int, j: int| 0 <= i <= j < entries.len() implies drained(entries)[i].0
        >= drained(entries)[j].0 by {
        assert(entries[entries.len() - 1 - j].0 <= entries[entries.len() - 1 - i].0);
    }
}

/// When a queue is emptied after `element` has joined at `priority`,
/// the newcomer is served after every entry of a higher priority and
/// before every entry of the same or a lower priority: among the
/// elements of one priority, the last to join is the first served.
pub proof fn lemma_newcomer_turn<T>(entries: Seq<(u64, T)>, priority: u64, element: T)
    requires
        ordered(entries),
    ensures
        ({
            let served = drained(enqueue(entries, priority, element));
            let turn = entries.len() - tally(entries, 0, priority);
            &&& served.len() == entries.len() + 1
            &&& 0 <= turn <= entries.len()
            &&& served[turn] == (priority, element)
            &&& forall|i: int|
                0 <= i < entries.len() && (#[trigger] entries[i]).0 > priority ==> {
                    &&& served[entries.len() - 1 - i] == entries[i]
                    &&& entries.len() - 1 - i < turn
                }
            &&& forall|i: int|
                0 <= i < entries.len() && (#[trigger] entries[i]).0 <= priority ==> {
                    &&& served[entries.len() - i] == entries[i]
                    &&& turn < entries.len() - i
                }
        }),
{
    let after = enqueue(entries, priority, element);
    lemma_enqueue_position(entries, priority, element);
    lemma_drained_is_reverse(after);
}

} // verus!
