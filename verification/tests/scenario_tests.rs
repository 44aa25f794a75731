//! End-to-end scenarios: block boundaries, the cached last element, byte
//! headers of the saved form, iterator resumption, and the empty list.

use sparse::{Flow, LoadError, PostingElement, PostingList, PostingVisitor};

fn header_u32(bytes: &[u8], at: usize) -> u32 {
    u32::from_le_bytes([bytes[at], bytes[at + 1], bytes[at + 2], bytes[at + 3]])
}

#[test]
fn test_one_block_two_remainders() {
    let list = PostingList::from((0..130).map(|i| (i * 3 + 32, (i as f32).to_bits())).collect());
    assert_eq!(list.len(), 130);

    let bytes = list.save();
    // one compressed block, two tail entries
    assert_eq!(header_u32(&bytes, 4), 1);
    assert_eq!(header_u32(&bytes, 8), 2);

    let mut iter = list.iter();
    assert_eq!(iter.next().unwrap().record_id, 32);
    let last = iter.last().unwrap();
    assert_eq!(last.record_id, 32 + 129 * 3);
    assert_eq!(last.weight, 129.0f32.to_bits());
}

#[test]
fn test_upsert_block_boundary() {
    let mut list = PostingList::default();
    for id in 1u32..=129 {
        let w = (id as f32).to_bits();
        assert!(list.upsert(PostingElement { record_id: id, weight: w, max_next_weight: w }));
        if id == 127 {
            let bytes = list.save();
            assert_eq!(header_u32(&bytes, 4), 0);
            assert_eq!(header_u32(&bytes, 8), 127);
        }
        if id == 128 {
            let bytes = list.save();
            assert_eq!(header_u32(&bytes, 4), 1);
            assert_eq!(header_u32(&bytes, 8), 0);
        }
    }
    let bytes = list.save();
    assert_eq!(header_u32(&bytes, 4), 1);
    assert_eq!(header_u32(&bytes, 8), 1);

    // a non-monotonic upsert is rejected and changes nothing
    let before = list.save();
    assert!(!list.upsert(PostingElement { record_id: 129, weight: 0, max_next_weight: 0 }));
    assert!(!list.upsert(PostingElement { record_id: 5, weight: 0, max_next_weight: 0 }));
    assert_eq!(before, list.save());
}

#[test]
fn test_save_is_deterministic() {
    let list = PostingList::from((0..130).map(|i| (i * 3 + 32, (i as f32).to_bits())).collect());
    let first = list.save();
    let second = list.save();
    assert_eq!(first, second);

    let reloaded = PostingList::load(&first).unwrap();
    assert_eq!(reloaded.save(), first);

    let a = list.to_vec();
    let b = reloaded.to_vec();
    assert_eq!(a, b);
}

struct TakeSome {
    left: usize,
    seen: Vec<u32>,
}

impl PostingVisitor<u32> for TakeSome {
    fn visit(&mut self, e: PostingElement) -> Flow<u32> {
        if self.left == 0 {
            Flow::Break(e.record_id)
        } else {
            self.left -= 1;
            self.seen.push(e.record_id);
            Flow::Continue
        }
    }
}

#[test]
fn test_try_for_each_resumes() {
    let list = PostingList::from((0..10u32).map(|i| (i, i)).collect());
    let mut iter = list.iter();

    let mut first = TakeSome { left: 4, seen: Vec::new() };
    match iter.try_for_each(&mut first) {
        Flow::Break(id) => assert_eq!(id, 4),
        Flow::Continue => panic!("expected a break"),
    }
    assert_eq!(first.seen, vec![0, 1, 2, 3]);

    // the second run resumes with the element the first broke on
    let mut second = TakeSome { left: 100, seen: Vec::new() };
    match iter.try_for_each(&mut second) {
        Flow::Continue => {}
        Flow::Break(_) => panic!("expected the end"),
    }
    assert_eq!(second.seen, vec![4, 5, 6, 7, 8, 9]);
}

#[test]
fn test_empty_list() {
    let list = PostingList::default();
    assert_eq!(list.len(), 0);
    let mut iter = list.iter();
    assert!(iter.peek().is_none());
    assert_eq!(iter.len_to_end(), 0);
    assert!(iter.last().is_none());
    assert!(iter.skip_to(7).is_none());

    let bytes = list.save();
    assert_eq!(bytes.len(), 12);
    let again = PostingList::load(&bytes).unwrap();
    assert_eq!(again.len(), 0);
    assert!(again.iter().peek().is_none());
}

#[test]
fn test_len_agrees_with_iteration() {
    for count in [0usize, 1, 127, 128, 129, 300] {
        let list = PostingList::from((0..count as u32).map(|i| (i * 2 + 1, i)).collect());
        assert_eq!(list.len(), count);
        assert_eq!(list.iter().len_to_end(), count);
        assert_eq!(list.to_vec().len(), count);
        let mut n = 0usize;
        let mut it = list.iter();
        while it.next().is_some() {
            n += 1;
        }
        assert_eq!(n, count);
    }
}

fn expect_err(r: Result<PostingList, LoadError>, want: LoadError) {
    match r {
        Ok(_) => panic!("expected an error"),
        Err(e) => assert_eq!(e, want),
    }
}

#[test]
fn test_load_truncated() {
    expect_err(PostingList::load(&[]), LoadError::Truncated);
    expect_err(PostingList::load(&[0u8; 11]), LoadError::Truncated);

    // a header that announces one block with no block bytes behind it
    let mut bytes = Vec::new();
    bytes.extend_from_slice(&0u32.to_le_bytes());
    bytes.extend_from_slice(&1u32.to_le_bytes());
    bytes.extend_from_slice(&0u32.to_le_bytes());
    expect_err(PostingList::load(&bytes), LoadError::Truncated);
}

#[test]
fn test_load_malformed() {
    // one block whose identifier slice is 8 bytes: not a multiple of 16
    let mut bytes = Vec::new();
    bytes.extend_from_slice(&8u32.to_le_bytes());
    bytes.extend_from_slice(&1u32.to_le_bytes());
    bytes.extend_from_slice(&0u32.to_le_bytes());
    bytes.extend_from_slice(&[0u8; 8]);
    bytes.extend_from_slice(&7u32.to_le_bytes());
    bytes.extend_from_slice(&0u32.to_le_bytes());
    bytes.extend_from_slice(&[0u8; 512]);
    assert_eq!(bytes.len(), 12 + 8 + 520);
    expect_err(PostingList::load(&bytes), LoadError::Malformed);

    // identifier bytes with no block to own them
    let mut bytes = Vec::new();
    bytes.extend_from_slice(&16u32.to_le_bytes());
    bytes.extend_from_slice(&0u32.to_le_bytes());
    bytes.extend_from_slice(&0u32.to_le_bytes());
    bytes.extend_from_slice(&[0u8; 16]);
    expect_err(PostingList::load(&bytes), LoadError::Malformed);

    // an unsorted tail
    let mut bytes = Vec::new();
    bytes.extend_from_slice(&0u32.to_le_bytes());
    bytes.extend_from_slice(&0u32.to_le_bytes());
    bytes.extend_from_slice(&2u32.to_le_bytes());
    bytes.extend_from_slice(&9u32.to_le_bytes());
    bytes.extend_from_slice(&1u32.to_le_bytes());
    bytes.extend_from_slice(&3u32.to_le_bytes());
    bytes.extend_from_slice(&1u32.to_le_bytes());
    expect_err(PostingList::load(&bytes), LoadError::Malformed);
}

#[test]
fn test_new_one() {
    let list = PostingList::new_one(42, 7.5f32.to_bits());
    assert_eq!(list.len(), 1);
    let e = list.iter().next().unwrap();
    assert_eq!(e.record_id, 42);
    assert_eq!(e.weight, 7.5f32.to_bits());
    assert_eq!(list.iter().last().unwrap().record_id, 42);
}

#[test]
fn test_builder_round_trip_unordered() {
    // entries arrive out of order; iteration is in id order with the same pairs
    let entries: Vec<(u32, u32)> = vec![(9, 90), (2, 20), (7, 70), (4, 40), (1, 10)];
    let list = PostingList::from(entries.clone());
    let mut sorted = entries.clone();
    sorted.sort_unstable();
    let got: Vec<(u32, u32)> =
        list.to_vec().iter().map(|e| (e.record_id, e.weight)).collect();
    assert_eq!(got, sorted);
}

#[test]
fn test_builder_keeps_first_of_duplicate_id() {
    let entries: Vec<(u32, u32)> = vec![(3, 333), (1, 111), (3, 999)];
    let list = PostingList::from(entries);
    let got: Vec<(u32, u32)> =
        list.to_vec().iter().map(|e| (e.record_id, e.weight)).collect();
    assert_eq!(got, vec![(1, 111), (3, 333)]);
}

#[test]
fn test_consecutive_ids_zero_width_blocks() {
    // consecutive identifiers compress to a zero-bit-width block: the block
    // contributes no identifier bytes at all and still decodes exactly
    let case: Vec<(u32, u32)> = (0..300u32).map(|i| (i, i ^ 0xABCD)).collect();
    let list = PostingList::from(case.clone());
    let bytes = list.save();
    // two full blocks of consecutive ids need no identifier bytes
    assert_eq!(header_u32(&bytes, 0), 0);
    assert_eq!(header_u32(&bytes, 4), 2);

    let reloaded = PostingList::load(&bytes).unwrap();
    let got: Vec<(u32, u32)> =
        reloaded.to_vec().iter().map(|e| (e.record_id, e.weight)).collect();
    assert_eq!(got, case);

    let mut iter = list.iter();
    assert_eq!(iter.skip_to(250).unwrap().record_id, 250);
}

#[test]
fn test_upsert_after_load() {
    let list = PostingList::from((0..130).map(|i| (i * 3 + 32, i)).collect());
    let bytes = list.save();
    let mut reloaded = PostingList::load(&bytes).unwrap();

    // the rebuilt cached last element governs further appends
    assert!(!reloaded.upsert(PostingElement { record_id: 419, weight: 0, max_next_weight: 0 }));
    assert!(reloaded.upsert(PostingElement { record_id: 420, weight: 7, max_next_weight: 7 }));
    let last = reloaded.iter().last().unwrap();
    assert_eq!(last.record_id, 420);
    assert_eq!(last.weight, 7);
    assert_eq!(reloaded.len(), 131);
}

#[test]
fn test_iterator_duplicate() {
    let list = PostingList::from((0..200u32).map(|i| (i * 2, i)).collect());
    let mut a = list.iter();
    a.next();
    a.next();
    let mut b = a.duplicate();
    assert_eq!(a.len_to_end(), b.len_to_end());
    assert_eq!(a.next().unwrap().record_id, 4);
    // the copy moves independently of the original
    assert_eq!(b.next().unwrap().record_id, 4);
    assert_eq!(b.skip_to(300).unwrap().record_id, 300);
    assert_eq!(a.peek().unwrap().record_id, 6);
}
