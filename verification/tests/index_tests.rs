use sparse_core::inverted_index::{InvertedIndexBuilder, RemappedSparseVector};
use sparse_core::posting_list_common::PostingListIter;
use sparse_core::weight::SingleWeight;

fn w(v: f32) -> SingleWeight {
    SingleWeight::from_bits(v.to_bits())
}

#[test]
fn test_index_builder_roundtrip() {
    let mut builder = InvertedIndexBuilder::new();
    builder.add(1, RemappedSparseVector::new(vec![0, 2], vec![w(1.0), w(2.0)]));
    builder.add(2, RemappedSparseVector::new(vec![1, 2], vec![w(3.0), w(4.0)]));
    builder.add(3, RemappedSparseVector::new(vec![2], vec![w(5.0)]));
    let index = builder.build();

    assert_eq!(index.vector_count(), 3);
    assert_eq!(index.postings.len(), 3);

    let dim2 = index.get(2).expect("dimension two is present");
    let mut iter = dim2.iter();
    let all = iter.for_each_till_id(u32::MAX);
    let pairs: Vec<(u32, SingleWeight)> = all.iter().map(|e| (e.record_id, e.weight)).collect();
    assert_eq!(pairs, vec![(1, w(2.0)), (2, w(4.0)), (3, w(5.0))]);

    assert!(index.get(3).is_none());
}

#[test]
fn test_index_missing_dimension_is_empty() {
    let mut builder = InvertedIndexBuilder::new();
    builder.add(7, RemappedSparseVector::new(vec![4], vec![w(1.5)]));
    let index = builder.build();

    // dimensions zero to three were never touched but exist, empty
    assert_eq!(index.postings.len(), 5);
    for d in 0..4u32 {
        let list = index.get(d).expect("dense range");
        assert!(list.as_view().is_empty());
    }
    let dim4 = index.get(4).expect("dimension four");
    assert_eq!(dim4.as_view().len(), 1);
}

#[test]
fn test_build_from_iterator() {
    let items = vec![
        (10, RemappedSparseVector::new(vec![0], vec![w(0.5)])),
        (11, RemappedSparseVector::new(vec![0, 1], vec![w(1.5), w(2.5)])),
        (12, RemappedSparseVector::new(vec![1], vec![w(3.5)])),
    ];
    let index = InvertedIndexBuilder::build_from_iterator(items);
    assert_eq!(index.vector_count(), 3);
    assert_eq!(index.postings.len(), 2);

    let dim0 = index.get(0).expect("dimension zero");
    let mut iter = dim0.iter();
    let all = iter.for_each_till_id(u32::MAX);
    let pairs: Vec<(u32, SingleWeight)> = all.iter().map(|e| (e.record_id, e.weight)).collect();
    assert_eq!(pairs, vec![(10, w(0.5)), (11, w(1.5))]);
}

#[test]
fn test_iterator() {}

#[test]
fn test_mixed_types_iterator() {}
