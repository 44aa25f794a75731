//! Peek and skip behaviour of the posting list iterator.

use sparse::{PostingBuilder, PostingElement, PostingList};

#[test]
fn test_posting_operations() {
    let mut builder = PostingBuilder::new();
    builder.add(1, 1.0f32.to_bits());
    builder.add(2, 2.1f32.to_bits());
    builder.add(5, 5.0f32.to_bits());
    builder.add(3, 2.0f32.to_bits());
    builder.add(8, 3.4f32.to_bits());
    builder.add(10, 3.0f32.to_bits());
    builder.add(20, 3.0f32.to_bits());
    builder.add(7, 4.0f32.to_bits());
    builder.add(11, 3.0f32.to_bits());

    let posting_list = builder.build();

    let mut iter = posting_list.iter();

    assert_eq!(iter.peek().unwrap().record_id, 1);
    iter.next();
    assert_eq!(iter.peek().unwrap().record_id, 2);
    iter.next();
    assert_eq!(iter.peek().unwrap().record_id, 3);

    assert_eq!(iter.skip_to(7).unwrap().record_id, 7);
    assert_eq!(iter.peek().unwrap().record_id, 7);

    assert!(iter.skip_to(9).is_none());
    assert_eq!(iter.peek().unwrap().record_id, 10);

    assert!(iter.skip_to(20).is_some());
    assert_eq!(iter.peek().unwrap().record_id, 20);

    assert!(iter.skip_to(21).is_none());
    assert!(iter.peek().is_none());
}

#[test]
fn test_upsert_insert_last() {
    let mut builder = PostingBuilder::new();
    builder.add(1, 1.0f32.to_bits());
    builder.add(3, 3.0f32.to_bits());
    builder.add(2, 2.0f32.to_bits());

    let mut posting_list = builder.build();

    // sorted by id
    let elems = posting_list.to_vec();
    assert_eq!(elems[0].record_id, 1);
    assert_eq!(elems[1].record_id, 2);
    assert_eq!(elems[2].record_id, 3);

    // append a new last element
    let w = 4.0f32.to_bits();
    assert!(posting_list.upsert(PostingElement {
        record_id: 4,
        weight: w,
        max_next_weight: w,
    }));
    assert_eq!(posting_list.to_vec()[3].record_id, 4);
}

#[test]
fn test_skip_to_across_blocks() {
    // three full blocks and a tail, ids with stride three
    let case: Vec<(u32, u32)> = (0..400u32).map(|i| (i * 3, i)).collect();
    let list = PostingList::from(case.clone());

    let mut iter = list.iter();
    // skipping deep into the third block decodes only that block
    assert_eq!(iter.skip_to(900).unwrap().record_id, 900);
    // a missing id between present ones
    assert!(iter.skip_to(901).is_none());
    assert_eq!(iter.peek().unwrap().record_id, 903);
    // skipping backward moves nothing: the cursor stays where it is
    assert!(iter.skip_to(100).is_none());
    assert_eq!(iter.peek().unwrap().record_id, 903);
    // into the remainder tail (entries beyond the third full block)
    assert_eq!(iter.skip_to(1152).unwrap().record_id, 1152);
    // past the end
    assert!(iter.skip_to(1198).is_none());
    assert!(iter.peek().is_none());
}
