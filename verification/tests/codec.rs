use kv_priority_queue::next_element;
use kv_priority_queue::packed::{append, decode, element_count, encode, last_element, remove_last};
use kv_priority_queue::wire::{read_u32_be, u32_to_be};

fn three() -> Vec<Vec<u8>> {
    vec![vec![5], vec![6, 7], vec![8, 9, 10]]
}

fn three_packed() -> Vec<u8> {
    vec![0, 0, 0, 3, 0, 0, 0, 1, 5, 0, 0, 0, 2, 6, 7, 0, 0, 0, 3, 8, 9, 10]
}

#[test]
fn u32_to_be_writes_most_significant_byte_first() {
    assert_eq!(u32_to_be(1), [0, 0, 0, 1]);
    assert_eq!(u32_to_be(4036988851), [0xf0, 0x9f, 0x8f, 0xb3]);
    assert_eq!(u32_to_be(0), [0, 0, 0, 0]);
    assert_eq!(u32_to_be(u32::MAX), [0xff, 0xff, 0xff, 0xff]);
    assert_eq!(u32_to_be(256), [0, 0, 1, 0]);
}

#[test]
fn read_u32_be_reads_the_first_four_bytes() {
    assert_eq!(read_u32_be(&[0, 0, 0, 1]), 1);
    assert_eq!(read_u32_be(&[0xf0, 0x9f, 0x8f, 0xb3, 7, 7]), 4036988851);
    assert_eq!(read_u32_be(&[0, 0, 1, 0, 9]), 256);
}

#[test]
fn u32_round_trips_through_bytes() {
    for value in [0u32, 1, 255, 256, 65535, 65536, 16777215, 16777216, u32::MAX] {
        assert_eq!(read_u32_be(&u32_to_be(value)), value);
    }
}

#[test]
fn encode_writes_count_then_records() {
    assert_eq!(encode(&three()), three_packed());
}

#[test]
fn encode_of_no_elements_is_a_zero_count() {
    let none: Vec<Vec<u8>> = Vec::new();
    assert_eq!(encode(&none), vec![0, 0, 0, 0]);
}

#[test]
fn encode_of_one_element() {
    assert_eq!(encode(&[vec![9, 8]]), vec![0, 0, 0, 1, 0, 0, 0, 2, 9, 8]);
}

#[test]
fn decode_reads_count_then_records() {
    assert_eq!(decode(&three_packed()), three());
}

#[test]
fn decode_leaves_trailing_bytes_unread() {
    let mut bytes = three_packed();
    bytes.extend_from_slice(&[0xaa, 0xbb, 0xcc]);
    assert_eq!(decode(&bytes), three());
}

#[test]
fn decode_of_encode_is_identity() {
    let lists: Vec<Vec<Vec<u8>>> = vec![
        vec![],
        vec![vec![]],
        vec![vec![], vec![]],
        vec![vec![1]],
        vec![vec![1, 2, 3], vec![], vec![4]],
        vec![vec![0; 300], vec![255; 2]],
        three(),
    ];
    for list in lists {
        assert_eq!(decode(&encode(&list)), list);
    }
}

#[test]
fn decode_of_encode_keeps_a_single_empty_payload() {
    let list: Vec<Vec<u8>> = vec![vec![]];
    let bytes = encode(&list);
    assert_eq!(bytes, vec![0, 0, 0, 1, 0, 0, 0, 0]);
    assert_eq!(decode(&bytes), list);
}

#[test]
fn encode_writes_long_lengths_big_endian() {
    let bytes = encode(&[vec![7; 258]]);
    assert_eq!(&bytes[..8], &[0, 0, 0, 1, 0, 0, 1, 2]);
    assert_eq!(bytes.len(), 8 + 258);
}

#[test]
fn element_count_reads_the_header() {
    assert_eq!(element_count(&three_packed()), 3);
    assert_eq!(element_count(&[0, 0, 1, 0]), 256);
    assert_eq!(element_count(&encode(&[vec![1]])), 1);
}

#[test]
fn next_element_splits_behind_the_first_record() {
    let bytes = [0, 0, 0, 2, 6, 7, 0, 0, 0, 1, 9];
    let (size, element, rest) = next_element(&bytes);
    assert_eq!(size, &[0, 0, 0, 2]);
    assert_eq!(element, &[6, 7]);
    assert_eq!(rest, &[0, 0, 0, 1, 9]);
}

#[test]
fn next_element_of_an_empty_payload() {
    let bytes = [0, 0, 0, 0, 1, 2];
    let (size, element, rest) = next_element(&bytes);
    assert_eq!(size, &[0, 0, 0, 0]);
    assert!(element.is_empty());
    assert_eq!(rest, &[1, 2]);
}

#[test]
fn append_adds_one_record_and_counts_it() {
    let one = encode(&[vec![5]]);
    let two = append(&one, &[6, 7]);
    assert_eq!(two, vec![0, 0, 0, 2, 0, 0, 0, 1, 5, 0, 0, 0, 2, 6, 7]);
    let three_bytes = append(&two, &[8, 9, 10]);
    assert_eq!(three_bytes, three_packed());
}

#[test]
fn append_agrees_with_encoding_the_longer_list() {
    let mut list: Vec<Vec<u8>> = Vec::new();
    let mut bytes = encode(&list);
    for element in [vec![1u8, 2], vec![], vec![3], vec![4; 70000]] {
        bytes = append(&bytes, &element);
        list.push(element);
        assert_eq!(bytes, encode(&list));
        assert_eq!(decode(&bytes), list);
    }
}

#[test]
fn append_carries_the_count_across_a_byte() {
    let list: Vec<Vec<u8>> = vec![vec![]; 255];
    let bytes = append(&encode(&list), &[1]);
    assert_eq!(&bytes[..4], &[0, 0, 1, 0]);
    assert_eq!(element_count(&bytes), 256);
}

#[test]
fn last_element_is_the_tail() {
    assert_eq!(last_element(&three_packed()), &[8, 9, 10]);
    assert_eq!(last_element(&encode(&[vec![4]])), &[4]);
    assert!(last_element(&encode(&[vec![4], vec![]])).is_empty());
}

#[test]
fn remove_last_gives_the_tail_and_the_rest() {
    let (removed, remaining) = remove_last(&three_packed());
    assert_eq!(removed, vec![8, 9, 10]);
    assert_eq!(remaining, Some(vec![0, 0, 0, 2, 0, 0, 0, 1, 5, 0, 0, 0, 2, 6, 7]));
}

#[test]
fn remove_last_of_the_only_element_leaves_nothing() {
    let (removed, remaining) = remove_last(&encode(&[vec![1, 2, 3]]));
    assert_eq!(removed, vec![1, 2, 3]);
    assert_eq!(remaining, None);
}

#[test]
fn remove_last_undoes_append() {
    let before = encode(&three());
    let after = append(&before, &[42]);
    let (removed, remaining) = remove_last(&after);
    assert_eq!(removed, vec![42]);
    assert_eq!(remaining, Some(before));
}

#[test]
fn remove_last_drops_trailing_bytes() {
    let mut bytes = three_packed();
    bytes.extend_from_slice(&[1, 2, 3, 4, 5]);
    let (removed, remaining) = remove_last(&bytes);
    assert_eq!(removed, vec![8, 9, 10]);
    assert_eq!(remaining, Some(encode(&[vec![5], vec![6, 7]])));
}
