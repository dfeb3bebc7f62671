use sparse_core::compressed_posting_list::CompressedPostingList;
use sparse_core::posting_list_common::PostingListIter;
use sparse_core::weight::{HalfWeight, SingleWeight, Weight};

fn w(v: f32) -> SingleWeight {
    SingleWeight::from_bits(v.to_bits())
}

// Half-precision bit patterns: 1.0, 2.0, -1.5 and the negative infinity.
const H_ONE: u16 = 0x3C00;
const H_TWO: u16 = 0x4000;
const H_NEG_3_HALVES: u16 = 0xBE00;
const H_NEG_INF: u16 = 0xFC00;

#[test]
fn test_single_weight_max() {
    let a = w(1.5);
    let b = w(2.5);
    assert_eq!(a.max(b), b);
    assert_eq!(b.max(a), b);
    assert_eq!(w(-3.0).max(w(-1.0)), w(-1.0));
    assert_eq!(SingleWeight::neg_infinity().max(a), a);
    assert_eq!(a.max(SingleWeight::neg_infinity()), a);
    // the result is always one of the two arguments
    let c = w(1.5);
    assert_eq!(a.max(c), a);
}

#[test]
fn test_half_weight_max() {
    let one = HalfWeight::from_bits(H_ONE);
    let two = HalfWeight::from_bits(H_TWO);
    let neg = HalfWeight::from_bits(H_NEG_3_HALVES);
    assert_eq!(one.max(two), two);
    assert_eq!(two.max(one), two);
    assert_eq!(neg.max(one), one);
    assert_eq!(HalfWeight::neg_infinity(), HalfWeight::from_bits(H_NEG_INF));
    assert_eq!(HalfWeight::neg_infinity().max(neg), neg);
    assert_eq!(one.to_bits(), H_ONE);
}

#[test]
fn test_weight_bits_round_trip() {
    for v in [-100.0f32, -0.25, 0.0, 0.75, 42.0] {
        assert_eq!(w(v).to_bits(), v.to_bits());
    }
}

// The posting machinery is generic over the weight precision: a list of
// half-precision weights round-trips just like a single-precision one.
#[test]
fn test_half_precision_posting_list() {
    let case: Vec<(u32, HalfWeight)> = (0..200u32)
        .map(|i| (i * 3, HalfWeight::from_bits(H_ONE + i as u16)))
        .collect();
    let list = CompressedPostingList::from(case.clone());
    let mut iter = list.iter();
    let mut count = 0;
    while let Some(e) = iter.next() {
        assert_eq!(e.record_id, case[count].0);
        assert_eq!(e.weight, case[count].1);
        count += 1;
    }
    assert_eq!(count, 200);
}
