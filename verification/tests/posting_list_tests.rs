use sparse_core::compressed_posting_list::CompressedPostingList;
use sparse_core::posting_list_common::PostingListIter;
use sparse_core::weight::{SingleWeight, Weight};

const CASES: [usize; 6] = [0, 64, 128, 192, 256, 320];

fn w(v: f32) -> SingleWeight {
    SingleWeight::from_bits(v.to_bits())
}

fn mk_case(count: usize) -> Vec<(u32, SingleWeight)> {
    (0..count).map(|i| (i as u32 + 10000, w(i as f32))).collect()
}

fn cases() -> Vec<Vec<(u32, SingleWeight)>> {
    CASES.iter().copied().map(mk_case).collect()
}

#[test]
fn test_iter() {
    for case in cases() {
        let list = CompressedPostingList::from(case.clone());

        let mut iter = list.iter();

        let mut count = 0;

        assert_eq!(iter.len_to_end(), case.len(), "len_to_end");

        while let Some(e) = iter.next() {
            assert_eq!(e.record_id, case[count].0);
            assert_eq!(e.weight, case[count].1);
            assert_eq!(iter.len_to_end(), case.len() - count - 1);
            count += 1;
        }
        assert_eq!(count, case.len());
    }
}

#[test]
fn test_try_till_id() {
    for i in 0..CASES.len() {
        for j in i..CASES.len() {
            for k in j..CASES.len() {
                println!("{} {} {}", CASES[i], CASES[j], CASES[k]);
                let case = mk_case(CASES[k]);
                let pl = CompressedPostingList::from(case.clone());

                let mut iter = pl.iter();

                let emitted = iter.for_each_till_id(
                    case.get(CASES[i]).map_or(u32::MAX, |x| x.0) - 1,
                );
                let data: Vec<(u32, SingleWeight)> =
                    emitted.iter().map(|e| (e.record_id, e.weight)).collect();
                assert_eq!(data, &case[..CASES[i]]);

                let emitted = iter.for_each_till_id(
                    case.get(CASES[j]).map_or(u32::MAX, |x| x.0) - 1,
                );
                let data: Vec<(u32, SingleWeight)> =
                    emitted.iter().map(|e| (e.record_id, e.weight)).collect();
                assert_eq!(data, &case[CASES[i]..CASES[j]]);
            }
        }
    }
}

// E5: a partial trailing block — one complete chunk plus 64 remainders; a
// scan bounded at the hundredth id emits exactly the first hundred entries
// and leaves the cursor on the next one.
#[test]
fn test_partial_trailing_block() {
    let case = mk_case(192);
    let list = CompressedPostingList::from(case.clone());

    let view = list.as_view();
    assert_eq!(view.len(), 192);
    assert!(!view.is_empty());
    assert_eq!(view.last_id(), Some(10191));
    let size = view.store_size();
    assert_eq!(size.chunks_count, 1);
    assert_eq!(size.remainders_count, 64);

    let mut iter = list.iter();
    let emitted = iter.for_each_till_id(10099);
    assert_eq!(emitted.len(), 100);
    for (i, e) in emitted.iter().enumerate() {
        assert_eq!(e.record_id, case[i].0);
        assert_eq!(e.weight, case[i].1);
    }
    let next = iter.peek().expect("an entry beyond the pivot");
    assert_eq!(next.record_id, 10100);
    assert_eq!(iter.current_index(), 100);
}

// E6: two bounded scans with pivots at the block boundaries together emit
// the first 256 entries, with no duplicates and no gaps.
#[test]
fn test_cross_chunk_bounded_scan() {
    let case = mk_case(320);
    let list = CompressedPostingList::from(case.clone());
    let mut iter = list.iter();

    let first = iter.for_each_till_id(case[128].0 - 1);
    let second = iter.for_each_till_id(case[256].0 - 1);
    let both: Vec<(u32, SingleWeight)> = first
        .iter()
        .chain(second.iter())
        .map(|e| (e.record_id, e.weight))
        .collect();
    assert_eq!(both, &case[..256]);
}

// P5: seeking an id finds it exactly when it is present, and otherwise
// leaves the cursor on the first higher id.
#[test]
fn test_skip_to() {
    let case: Vec<(u32, SingleWeight)> = vec![
        (3, w(0.5)),
        (7, w(1.5)),
        (130, w(2.5)),
        (260, w(3.5)),
    ];
    let list = CompressedPostingList::from(case);

    let mut iter = list.iter();
    let hit = iter.skip_to(7).expect("7 is present");
    assert_eq!(hit.record_id, 7);
    assert_eq!(hit.weight, w(1.5));

    assert!(iter.skip_to(100).is_none());
    let after = iter.peek().expect("an entry above 100");
    assert_eq!(after.record_id, 130);

    assert!(iter.skip_to(1000).is_none());
    assert_eq!(iter.len_to_end(), 0);
}

#[test]
fn test_iterator_basics() {
    let case = mk_case(130);
    let list = CompressedPostingList::from(case.clone());
    let mut iter = list.iter();
    assert_eq!(iter.last_id(), Some(10129));
    assert!(!<sparse_core::compressed_posting_list::CompressedPostingListIterator<
        SingleWeight,
    > as PostingListIter<SingleWeight>>::reliable_max_next_weight());

    let first = iter.peek().expect("a first entry");
    assert_eq!(first.record_id, 10000);
    assert_eq!(first.max_next_weight, SingleWeight::neg_infinity());

    iter.skip_to_end();
    assert_eq!(iter.len_to_end(), 0);
    assert_eq!(iter.current_index(), 130);
    assert!(iter.peek().is_none());

    let owned = list.as_view().to_owned();
    let mut again = owned.iter().into_std_iter();
    let mut count = 0;
    while let Some(e) = again.next() {
        assert_eq!(e.record_id, case[count].0);
        count += 1;
    }
    assert_eq!(count, 130);
}

#[test]
fn test_store_size_totals() {
    let size = sparse_core::compressed_posting_list::CompressedPostingListStoreSize {
        id_data_bytes: 100,
        chunks_count: 3,
        remainders_count: 5,
        sizeof_chunk: 520,
        sizeof_remainder: 8,
    };
    assert_eq!(size.chunks_bytes(), 1560);
    assert_eq!(size.total(), 100 + 1560 + 40);
}

// P3: a scan bounded by the largest possible id emits the same sequence as
// draining the list entry by entry.
#[test]
fn test_unbounded_scan_equals_drain() {
    for case in cases() {
        let list = CompressedPostingList::from(case.clone());

        let mut scan_iter = list.iter();
        let scanned = scan_iter.for_each_till_id(u32::MAX);
        assert_eq!(scan_iter.len_to_end(), 0);

        let mut drain_iter = list.iter();
        let mut drained = Vec::new();
        while let Some(e) = drain_iter.next() {
            drained.push(e);
        }
        assert_eq!(scanned, drained);
    }
}
