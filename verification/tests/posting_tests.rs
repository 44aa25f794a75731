//! Iteration, append and persistence of posting lists, over list sizes that
//! cover no block, exactly one block, and several blocks plus a tail.

use sparse::{Flow, PostingElement, PostingList, PostingVisitor};

const CASES: [usize; 6] = [0, 64, 128, 192, 256, 320];

fn mk_case(count: usize) -> Vec<(u32, u32)> {
    (0..count).map(|i| (i as u32 * 3 + 32, (i as f32).to_bits())).collect()
}

fn cases() -> Vec<Vec<(u32, u32)>> {
    CASES.iter().copied().map(mk_case).collect()
}

#[test]
fn test_foo() {
    let list = PostingList::from((0..130).map(|i| (i * 3 + 32, (i as f32).to_bits())).collect());

    let mut iter = list.iter();

    let mut count = 0usize;
    while let Some(e) = iter.next() {
        assert_eq!(e.record_id, count as u32 * 3 + 32);
        count += 1;
    }
    assert_eq!(count, 130);
}

#[test]
fn test2() {
    for case in cases() {
        let list = PostingList::from(case.clone());

        let mut iter = list.iter();

        let mut count = 0;

        assert_eq!(iter.len_to_end(), case.len(), "len_to_end");

        while let Some(e) = iter.next() {
            assert_eq!(e.record_id, case[count].0);
            assert_eq!(e.weight, case[count].1);
            assert_eq!(iter.len_to_end(), case.len() - count - 1);
            count += 1;
        }
    }
}

#[test]
fn test_upsert_append() {
    for case in cases() {
        let mut pl = PostingList::default();
        for (id, weight) in case.iter().copied() {
            pl.upsert(PostingElement { record_id: id, weight, max_next_weight: weight });
            assert_eq!(pl.iter().last().unwrap().record_id, id);
        }
        let data = pl.iter_collect_pairs();
        assert_eq!(data, case);
    }
}

struct CollectUntil {
    limit: usize,
    counter: usize,
    data: Vec<u32>,
}

impl PostingVisitor<u32> for CollectUntil {
    fn visit(&mut self, e: PostingElement) -> Flow<u32> {
        if self.counter == self.limit {
            Flow::Break(e.record_id)
        } else {
            self.data.push(e.record_id);
            self.counter += 1;
            Flow::Continue
        }
    }
}

#[test]
fn test_try_foreach() {
    for i in 0..CASES.len() {
        for j in i..CASES.len() {
            for k in j..CASES.len() {
                let case = mk_case(CASES[k]);
                let pl = PostingList::from(case.clone());

                let mut iter = pl.iter();

                let mut visitor = CollectUntil { limit: CASES[i], counter: 0, data: Vec::new() };
                let end = iter.try_for_each(&mut visitor);
                let end = match end {
                    Flow::Continue => None,
                    Flow::Break(id) => Some(id),
                };
                assert_eq!(end, case.get(CASES[i]).map(|e| e.0));
                assert_eq!(
                    visitor.data,
                    case[..CASES[i]].iter().map(|e| e.0).collect::<Vec<_>>()
                );

                let mut visitor = CollectUntil {
                    limit: CASES[j] - CASES[i],
                    counter: 0,
                    data: Vec::new(),
                };
                let end = iter.try_for_each(&mut visitor);
                let end = match end {
                    Flow::Continue => None,
                    Flow::Break(id) => Some(id),
                };
                assert_eq!(end, case.get(CASES[j]).map(|e| e.0));
                assert_eq!(
                    visitor.data,
                    if i != j {
                        case[CASES[i]..CASES[j]].iter().map(|e| e.0).collect::<Vec<_>>()
                    } else {
                        Vec::new()
                    }
                );
            }
        }
    }
}

#[test]
fn test_load_and_save() {
    for case in cases() {
        let list = PostingList::from(case.clone());

        let buf = list.save();

        let list2 = PostingList::load(&buf).unwrap();

        let data = list2.iter_collect_pairs();
        assert_eq!(data, case);

        assert_eq!(list.iter().last(), list2.iter().last());
    }
}

trait CollectPairs {
    fn iter_collect_pairs(&self) -> Vec<(u32, u32)>;
}

impl CollectPairs for PostingList {
    fn iter_collect_pairs(&self) -> Vec<(u32, u32)> {
        let mut out = Vec::new();
        let mut it = self.iter();
        while let Some(e) = it.next() {
            out.push((e.record_id, e.weight));
        }
        out
    }
}
