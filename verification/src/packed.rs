//! The packed element list: the value stored under one priority.
//!
//! ```text
//! count: u32, big-endian
//! count times:
//!     length: u32, big-endian
//!     length bytes of payload
//! ```
//!
//! Elements stand oldest first; a new one is appended at the tail.

use crate::wire::{be32, be32_value, read_u32_be, u32_to_be, FIELD_BYTES};
use crate::wire::{lemma_be32_len, lemma_be32_of_be32_value, lemma_be32_value_of_be32};
use vstd::prelude::*;
use vstd::slice::slice_to_vec;

verus! {

broadcast use lemma_be32_len;

/// Whether every length, and the count, can be written in a 32-bit field.
pub open spec fn fits(elements: Seq<Seq<u8>>) -> bool {
    &&& elements.len() <= u32::MAX
    &&& forall|i: int| 0 <= i < elements.len() ==> (#[trigger] elements[i]).len() <= u32::MAX
}

/// One record: the element's length, then its bytes.
pub open spec fn record(element: Seq<u8>) -> Seq<u8> {
    be32(element.len()) + element
}

/// The records of `elements`, one after the other.
pub open spec fn records(elements: Seq<Seq<u8>>) -> Seq<u8>
    decreases elements.len(),
{
    if elements.len() == 0 {
        Seq::empty()
    } else {
        record(elements[0]) + records(elements.drop_first())
    }
}

/// The packed form of `elements`: their count, then their records.
pub open spec fn packed(elements: Seq<Seq<u8>>) -> Seq<u8> {
    be32(elements.len()) + records(elements)
}

/// Whether `bytes` begin with a whole record.
pub open spec fn has_record(bytes: Seq<u8>) -> bool {
    &&& bytes.len() >= 4
    &&& 4 + be32_value(bytes.take(4)) <= bytes.len()
}

/// The number of bytes that the record at the start of `bytes` takes.
pub open spec fn record_len(bytes: Seq<u8>) -> int {
    (4 + be32_value(bytes.take(4))) as int
}

/// The payload of the record at the start of `bytes`.
pub open spec fn record_element(bytes: Seq<u8>) -> Seq<u8> {
    bytes.subrange(4, record_len(bytes))
}

/// The first `n` elements recorded in `bytes`, or `None` where `bytes` end
/// before the `n`-th record does.
pub open spec fn parse_records(bytes: Seq<u8>, n: nat) -> Option<Seq<Seq<u8>>>
    decreases n,
{
    if n == 0 {
        Some(Seq::empty())
    } else if !has_record(bytes) {
        None
    } else {
        match parse_records(bytes.skip(record_len(bytes)), (n - 1) as nat) {
            Some(rest) => Some(seq![record_element(bytes)] + rest),
            None => None,
        }
    }
}

/// The elements that `bytes` hold: as many records as the leading count
/// says. Bytes behind the last record are not looked at.
pub open spec fn unpack(bytes: Seq<u8>) -> Option<Seq<Seq<u8>>> {
    if bytes.len() < 4 {
        None
    } else {
        parse_records(bytes.skip(4), be32_value(bytes.take(4)))
    }
}

/// Whether `bytes` are exactly the packed form of some list.
pub open spec fn is_packed(bytes: Seq<u8>) -> bool {
    match unpack(bytes) {
        Some(elements) => bytes == packed(elements),
        None => false,
    }
}

/// The list that `bytes` hold; empty where they hold none.
pub open spec fn elements_of(bytes: Seq<u8>) -> Seq<Seq<u8>> {
    match unpack(bytes) {
        Some(elements) => elements,
        None => Seq::empty(),
    }
}

/// Records are laid end to end: those of a list with one more element are
/// those of the list, then the record of the new element.
pub proof fn lemma_records_push(elements: Seq<Seq<u8>>, element: Seq<u8>)
    ensures
        records(elements.push(element)) == records(elements) + record(element),
    decreases elements.len(),
{
    let longer = elements.push(element);
    if elements.len() == 0 {
        assert(records(longer.drop_first()) =~= Seq::<u8>::empty());
    } else {
        lemma_records_push(elements.drop_first(), element);
        assert(longer.drop_first() =~= elements.drop_first().push(element));
    }
}

/// Parsing yields as many elements as were asked for, each short enough
/// for a length field.
pub proof fn lemma_parse_records_fits(bytes: Seq<u8>, n: nat)
    requires
        parse_records(bytes, n) is Some,
    ensures
        parse_records(bytes, n)->0.len() == n,
        forall|i: int|
            0 <= i < n ==> (#[trigger] parse_records(bytes, n)->0[i]).len() <= u32::MAX,
    decreases n,
{
    if n > 0 {
        lemma_parse_records_fits(bytes.skip(record_len(bytes)), (n - 1) as nat);
    }
}

/// Parsing what was written, whatever follows it, gives back the elements
/// written.
pub proof fn lemma_parse_records_of_records(elements: Seq<Seq<u8>>, tail: Seq<u8>)
    requires
        fits(elements),
    ensures
        parse_records(records(elements) + tail, elements.len()) == Some(elements),
    decreases elements.len(),
{
    if elements.len() > 0 {
        let first = elements[0];
        let rest = elements.drop_first();
        let bytes = records(elements) + tail;
        lemma_be32_value_of_be32(first.len());
        assert(record_element(bytes) =~= first);
        assert(bytes.skip(record_len(bytes)) =~= records(rest) + tail);
        lemma_parse_records_of_records(rest, tail);
    }
}

/// Decoding an encoded list gives the list back, whatever bytes follow
/// the encoding.
pub proof fn lemma_unpack_packed_prefix(elements: Seq<Seq<u8>>, tail: Seq<u8>)
    requires
        fits(elements),
    ensures
        unpack(packed(elements) + tail) == Some(elements),
{
    let bytes = packed(elements) + tail;
    lemma_be32_value_of_be32(elements.len());
    assert(bytes.skip(4) =~= records(elements) + tail);
    lemma_parse_records_of_records(elements, tail);
}

/// Decoding an encoded list gives the list back: every element, in order,
/// an empty payload included.
pub proof fn lemma_unpack_packed(elements: Seq<Seq<u8>>)
    requires
        fits(elements),
    ensures
        unpack(packed(elements)) == Some(elements),
        is_packed(packed(elements)),
{
    lemma_unpack_packed_prefix(elements, Seq::empty());
}

/// What was parsed stands at the start of the bytes, as its records.
pub proof fn lemma_records_of_parse_records(bytes: Seq<u8>, n: nat)
    requires
        parse_records(bytes, n) is Some,
    ensures
        records(parse_records(bytes, n)->0).len() <= bytes.len(),
        bytes.take(records(parse_records(bytes, n)->0).len() as int) == records(
            parse_records(bytes, n)->0,
        ),
    decreases n,
{
    let elements = parse_records(bytes, n)->0;
    if n == 0 {
        assert(bytes.take(0) =~= records(elements));
    } else {
        let rest_bytes = bytes.skip(record_len(bytes));
        let rest = parse_records(rest_bytes, (n - 1) as nat)->0;
        lemma_records_of_parse_records(rest_bytes, (n - 1) as nat);
        lemma_be32_of_be32_value(bytes.take(4));
        assert(elements.drop_first() =~= rest);
    }
}

/// What was decoded is a list that can be encoded, and its encoding is
/// the start of the bytes it was decoded from.
pub proof fn lemma_packed_of_unpack(bytes: Seq<u8>)
    requires
        unpack(bytes) is Some,
    ensures
        fits(unpack(bytes)->0),
        unpack(bytes)->0.len() == be32_value(bytes.take(4)),
        packed(unpack(bytes)->0).len() <= bytes.len(),
        bytes.take(packed(unpack(bytes)->0).len() as int) == packed(unpack(bytes)->0),
{
    let n = be32_value(bytes.take(4));
    lemma_parse_records_fits(bytes.skip(4), n);
    lemma_records_of_parse_records(bytes.skip(4), n);
    lemma_be32_of_be32_value(bytes.take(4));
}

/// Splits `slice` behind its first record: the length field, the payload,
/// and what follows the record.
pub fn next_element(slice: &[u8]) -> (parts: (&[u8], &[u8], &[u8]))
    requires
        has_record(slice@),
    ensures
        parts.0@ == slice@.take(4),
        parts.1@ == record_element(slice@),
        parts.2@ == slice@.skip(record_len(slice@)),
{
    let (element_size, o1) = slice.split_at(FIELD_BYTES);
    let element_usize: usize = read_u32_be(element_size) as usize;
    let (element, o2) = o1.split_at(element_usize);
    (element_size, element, o2)
}

/// Where the part of `list` from `i` on is `first` followed by `later`,
/// `first` is the element at `i` and `later` is the part from `i + 1` on.
proof fn lemma_skip_step(list: Seq<Seq<u8>>, i: int, first: Seq<u8>, later: Seq<Seq<u8>>)
    requires
        0 <= i <= list.len(),
        list.skip(i) == seq![first] + later,
    ensures
        i < list.len(),
        list[i] == first,
        later == list.skip(i + 1),
        list.take(i + 1) == list.take(i).push(first),
{
    let from = list.skip(i);
    assert(from.len() == 1 + later.len());
    assert(from[0] == first);
    assert forall|j: int| 0 <= j < later.len() implies later[j] == list.skip(i + 1)[j] by {
        assert(later[j] == from[j + 1]);
    }
}

/// The payloads of `elements`, as plain byte sequences.
pub open spec fn payloads(elements: Seq<Vec<u8>>) -> Seq<Seq<u8>> {
    elements.map_values(|element: Vec<u8>| element@)
}

/// The count that `bytes` lead with.
pub fn element_count(bytes: &[u8]) -> (count: u32)
    requires
        bytes@.len() >= 4,
    ensures
        count == be32_value(bytes@.take(4)),
        unpack(bytes@) is Some ==> count == unpack(bytes@)->0.len(),
{
    proof {
        if unpack(bytes@) is Some {
            lemma_packed_of_unpack(bytes@);
        }
    }
    read_u32_be(bytes)
}

/// Encodes `elements`, in order, as one packed list.
pub fn encode(elements: &[Vec<u8>]) -> (bytes: Vec<u8>)
    requires
        fits(payloads(elements@)),
    ensures
        bytes@ == packed(payloads(elements@)),
        unpack(bytes@) == Some(payloads(elements@)),
{
    let ghost all = payloads(elements@);
    proof {
        lemma_unpack_packed(all);
    }
    let count: usize = elements.len();
    let mut bytes: Vec<u8> = Vec::new();
    bytes.extend_from_slice(&u32_to_be(count as u32));
    let mut i: usize = 0;
    while i < count
        invariant
            i <= count,
            count == elements@.len(),
            all == payloads(elements@),
            fits(all),
            bytes@ == be32(all.len()) + records(all.take(i as int)),
        decreases count - i,
    {
        let element: &Vec<u8> = &elements[i];
        proof {
            lemma_records_push(all.take(i as int), all[i as int]);
            assert(all.take(i as int).push(all[i as int]) =~= all.take(i + 1));
        }
        bytes.extend_from_slice(&u32_to_be(element.len() as u32));
        bytes.extend_from_slice(element.as_slice());
        i = i + 1;
    }
    assert(all.take(count as int) =~= all);
    bytes
}

/// Decodes the list that `bytes` hold: as many elements as the leading
/// count says, each read by its length. Bytes behind the last record are
/// left unread.
pub fn decode(bytes: &[u8]) -> (elements: Vec<Vec<u8>>)
    requires
        unpack(bytes@) is Some,
    ensures
        payloads(elements@) == unpack(bytes@)->0,
{
    let ghost all = unpack(bytes@)->0;
    let count: u32 = element_count(bytes);
    let (_, mut rest) = bytes.split_at(FIELD_BYTES);
    let mut elements: Vec<Vec<u8>> = Vec::new();
    let mut i: u32 = 0;
    while i < count
        invariant
            i <= count,
            count == all.len(),
            parse_records(rest@, (count - i) as nat) == Some(all.skip(i as int)),
            payloads(elements@) == all.take(i as int),
        decreases count - i,
    {
        let (_, element, next) = next_element(rest);
        proof {
            let later = parse_records(next@, (count - i - 1) as nat)->0;
            lemma_skip_step(all, i as int, element@, later);
        }
        elements.push(slice_to_vec(element));
        rest = next;
        i = i + 1;
    }
    elements
}

/// Appends `element` to the list that `existing` encode, without decoding
/// it: the count goes up by one and one record is added at the end.
pub fn append(existing: &[u8], element: &[u8]) -> (bytes: Vec<u8>)
    requires
        is_packed(existing@),
        elements_of(existing@).len() < u32::MAX,
        element@.len() <= u32::MAX,
    ensures
        bytes@ == packed(elements_of(existing@).push(element@)),
        unpack(bytes@) == Some(elements_of(existing@).push(element@)),
{
    let ghost all = elements_of(existing@);
    let count: u32 = element_count(existing);
    let (_, other) = existing.split_at(FIELD_BYTES);
    proof {
        lemma_records_push(all, element@);
        lemma_packed_of_unpack(existing@);
        lemma_unpack_packed(all.push(element@));
    }
    let mut bytes: Vec<u8> = Vec::new();
    bytes.extend_from_slice(&u32_to_be(count + 1));
    bytes.extend_from_slice(other);
    bytes.extend_from_slice(&u32_to_be(element.len() as u32));
    bytes.extend_from_slice(element);
    assert(bytes@ =~= packed(all.push(element@)));
    bytes
}

/// The last element of the list that `bytes` hold, found by walking the
/// records from the first to the last.
pub fn last_element(bytes: &[u8]) -> (element: &[u8])
    requires
        unpack(bytes@) is Some,
        elements_of(bytes@).len() >= 1,
    ensures
        element@ == elements_of(bytes@).last(),
{
    let ghost all = elements_of(bytes@);
    let count: u32 = element_count(bytes);
    let (_, mut rest) = bytes.split_at(FIELD_BYTES);
    let mut n: u32 = count;
    loop
        invariant
            1 <= n <= count,
            count == all.len(),
            all == elements_of(bytes@),
            parse_records(rest@, n as nat) == Some(all.skip(count - n)),
        decreases n,
    {
        let (_, element, next) = next_element(rest);
        proof {
            let later = parse_records(next@, (n - 1) as nat)->0;
            lemma_skip_step(all, count - n, element@, later);
        }
        rest = next;
        n = n - 1;
        if n == 0 {
            return element;
        }
    }
}

/// Takes the last element off the list that `existing` encode. Gives the
/// element, and the encoding of the elements before it, or `None` where it
/// was the only one.
pub fn remove_last(existing: &[u8]) -> (removed: (Vec<u8>, Option<Vec<u8>>))
    requires
        unpack(existing@) is Some,
        elements_of(existing@).len() >= 1,
    ensures
        removed.0@ == elements_of(existing@).last(),
        match removed.1 {
            Some(remaining) => {
                &&& elements_of(existing@).len() > 1
                &&& remaining@ == packed(elements_of(existing@).drop_last())
                &&& unpack(remaining@) == Some(elements_of(existing@).drop_last())
            },
            None => elements_of(existing@).len() == 1,
        },
{
    let ghost all = elements_of(existing@);
    let count: u32 = element_count(existing);
    let (_, mut rest) = existing.split_at(FIELD_BYTES);
    let mut remaining: Vec<u8> = Vec::new();
    remaining.extend_from_slice(&u32_to_be(count - 1));
    let mut n: u32 = count;
    loop
        invariant
            1 <= n <= count,
            count == all.len(),
            all == elements_of(existing@),
            unpack(existing@) is Some,
            parse_records(rest@, n as nat) == Some(all.skip(count - n)),
            remaining@ == be32((count - 1) as nat) + records(all.take(count - n)),
        decreases n,
    {
        let (element_size, element, next) = next_element(rest);
        proof {
            let later = parse_records(next@, (n - 1) as nat)->0;
            lemma_skip_step(all, count - n, element@, later);
            lemma_records_push(all.take(count - n), element@);
            lemma_be32_of_be32_value(element_size@);
        }
        rest = next;
        n = n - 1;
        if n == 0 {
            proof {
                lemma_packed_of_unpack(existing@);
                lemma_unpack_packed(all.drop_last());
            }
            if count == 1 {
                return (slice_to_vec(element), None);
            } else {
                return (slice_to_vec(element), Some(remaining));
            }
        }
        remaining.extend_from_slice(element_size);
        remaining.extend_from_slice(element);
    }
}

} // verus!
