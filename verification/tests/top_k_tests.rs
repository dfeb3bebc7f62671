use sparse_core::top_k::TopK;
use sparse_core::types::{Score, ScoredPointOffset};

fn score(v: f32) -> Score {
    Score::from_f32_bits(v.to_bits())
}

#[test]
fn empty_with_double_capacity() {
    let top_k = TopK::new(3);
    assert_eq!(top_k.len(), 0);
    assert_eq!(top_k.capacity(), 2 * 3);
    assert_eq!(top_k.threshold(), Score::min_value());
}

#[test]
fn test_top_k_under() {
    let mut top_k = TopK::new(3);
    top_k.push(ScoredPointOffset { score: score(1.0), idx: 1 });
    assert_eq!(top_k.threshold(), Score::min_value());
    assert_eq!(top_k.len(), 1);

    top_k.push(ScoredPointOffset { score: score(2.0), idx: 2 });
    assert_eq!(top_k.threshold(), Score::min_value());
    assert_eq!(top_k.len(), 2);

    let res = top_k.into_vec();
    assert_eq!(res.len(), 2);
    assert_eq!(res[0].score, score(2.0));
    assert_eq!(res[1].score, score(1.0));
}

#[test]
fn test_top_k_over() {
    let mut top_k = TopK::new(3);
    top_k.push(ScoredPointOffset { score: score(1.0), idx: 1 });
    assert_eq!(top_k.len(), 1);
    assert_eq!(top_k.threshold(), Score::min_value());

    top_k.push(ScoredPointOffset { score: score(3.0), idx: 3 });
    assert_eq!(top_k.len(), 2);
    assert_eq!(top_k.threshold(), Score::min_value());

    top_k.push(ScoredPointOffset { score: score(2.0), idx: 2 });
    assert_eq!(top_k.len(), 3);
    assert_eq!(top_k.threshold(), Score::min_value());

    top_k.push(ScoredPointOffset { score: score(4.0), idx: 4 });
    assert_eq!(top_k.len(), 4);
    assert_eq!(top_k.threshold(), Score::min_value());

    let res = top_k.into_vec();
    assert_eq!(res.len(), 3);
    assert_eq!(res[0].score, score(4.0));
    assert_eq!(res[1].score, score(3.0));
    assert_eq!(res[2].score, score(2.0));
}

#[test]
fn test_top_k_pruned() {
    let mut top_k = TopK::new(3);
    top_k.push(ScoredPointOffset { score: score(1.0), idx: 1 });
    assert_eq!(top_k.threshold(), Score::min_value());
    assert_eq!(top_k.len(), 1);

    top_k.push(ScoredPointOffset { score: score(4.0), idx: 4 });
    assert_eq!(top_k.threshold(), Score::min_value());
    assert_eq!(top_k.len(), 2);

    top_k.push(ScoredPointOffset { score: score(2.0), idx: 2 });
    assert_eq!(top_k.threshold(), Score::min_value());
    assert_eq!(top_k.len(), 3);

    top_k.push(ScoredPointOffset { score: score(5.0), idx: 5 });
    assert_eq!(top_k.threshold(), Score::min_value());
    assert_eq!(top_k.len(), 4);

    top_k.push(ScoredPointOffset { score: score(3.0), idx: 3 });
    assert_eq!(top_k.threshold(), Score::min_value());
    assert_eq!(top_k.len(), 5);

    top_k.push(ScoredPointOffset { score: score(6.0), idx: 6 });
    assert_eq!(top_k.threshold(), score(4.0));
    assert_eq!(top_k.len(), 3);
    assert_eq!(top_k.capacity(), 6);

    let res = top_k.into_vec();
    assert_eq!(res.len(), 3);
    assert_eq!(res[0].score, score(6.0));
    assert_eq!(res[1].score, score(5.0));
    assert_eq!(res[2].score, score(4.0));
}

// Ties on the score are broken by the offset, descending: of the six pushed
// candidates the prune keeps the top score and the two tied candidates with
// the highest offsets.
#[test]
fn test_top_same_scores() {
    let mut top_k = TopK::new(3);
    top_k.push(ScoredPointOffset { score: score(1.0), idx: 1 });
    assert_eq!(top_k.threshold(), Score::min_value());
    assert_eq!(top_k.len(), 1);

    top_k.push(ScoredPointOffset { score: score(1.0), idx: 4 });
    assert_eq!(top_k.threshold(), Score::min_value());
    assert_eq!(top_k.len(), 2);

    top_k.push(ScoredPointOffset { score: score(2.0), idx: 2 });
    assert_eq!(top_k.threshold(), Score::min_value());
    assert_eq!(top_k.len(), 3);

    top_k.push(ScoredPointOffset { score: score(1.0), idx: 5 });
    assert_eq!(top_k.threshold(), Score::min_value());
    assert_eq!(top_k.len(), 4);

    top_k.push(ScoredPointOffset { score: score(1.0), idx: 3 });
    assert_eq!(top_k.threshold(), Score::min_value());
    assert_eq!(top_k.len(), 5);

    top_k.push(ScoredPointOffset { score: score(1.0), idx: 6 });
    assert_eq!(top_k.threshold(), score(1.0));
    assert_eq!(top_k.len(), 3);
    assert_eq!(top_k.capacity(), 6);

    let res = top_k.into_vec();
    assert_eq!(res.len(), 3);
    assert_eq!(res[0], ScoredPointOffset { score: score(2.0), idx: 2 });
    assert_eq!(res[1], ScoredPointOffset { score: score(1.0), idx: 6 });
    assert_eq!(res[2], ScoredPointOffset { score: score(1.0), idx: 5 });
}

#[test]
fn test_threshold_monotone_and_rejections() {
    let mut top_k = TopK::new(2);
    let mut last = top_k.threshold();
    let scores = [5.0f32, 1.0, 3.0, 2.0, 4.0, 2.5, 6.0, 0.5];
    for (i, s) in scores.iter().enumerate() {
        top_k.push(ScoredPointOffset { score: score(*s), idx: i as u32 });
        let now = top_k.threshold();
        assert!(now.key >= last.key);
        last = now;
    }
    // a candidate at or below the threshold is rejected outright
    let before = top_k.len();
    let accepted = top_k.push(ScoredPointOffset { score: score(0.25), idx: 99 });
    assert!(!accepted);
    assert_eq!(top_k.len(), before);
}

#[test]
fn test_score_key_round_trip() {
    for v in [-3.5f32, -1.0, -0.0, 0.0, 0.125, 1.0, 4.0, 1e30, f32::MIN, f32::MAX] {
        let s = Score::from_f32_bits(v.to_bits());
        assert_eq!(s.to_f32_bits(), v.to_bits());
    }
    // the key order agrees with the numeric order
    let vals = [f32::NEG_INFINITY, f32::MIN, -2.0f32, -0.5, 0.5, 2.0, f32::MAX, f32::INFINITY];
    for w in vals.windows(2) {
        let a = Score::from_f32_bits(w[0].to_bits());
        let b = Score::from_f32_bits(w[1].to_bits());
        assert!(a.key < b.key);
    }
    assert_eq!(Score::min_value(), Score::from_f32_bits(f32::MIN.to_bits()));
}
