use vstd::prelude::*;

verus! {

/// Identifier of a vector stored in an index (also called record id).
pub type PointOffsetType = u32;

/// Identifier of one coordinate axis of a sparse vector.
pub type DimId = u32;

/// Order-preserving key of a single-precision bit pattern.
///
/// The key of a pattern is its rank in the standard total order on
/// single-precision values: patterns with the sign bit clear are moved above
/// the midpoint, patterns with the sign bit set are inverted. Comparing two
/// keys as plain integers then agrees with comparing the encoded values
/// (negative infinity lowest, positive infinity highest).
pub open spec fn score_key_of_bits(bits: u32) -> u32 {
    if bits >= 0x8000_0000 {
        !bits
    } else {
        (bits + 0x8000_0000) as u32
    }
}

/// Bit pattern of the lowest finite single-precision value, the initial
/// threshold of a top-k collector.
pub const SCORE_MIN_BITS: u32 = 0xFF7F_FFFF;

/// A score: the single-precision outcome of comparing two vectors, held as
/// the order-preserving key of its bit pattern.
#[derive(Clone, Copy, Debug, PartialEq, Eq, Structural)]
pub struct Score {
    pub key: u32,
}

impl Score {
    /// The score whose single-precision bit pattern is `bits`.
    pub fn from_f32_bits(bits: u32) -> (r: Score)
        ensures
            r.key == score_key_of_bits(bits),
    {
        if bits >= 0x8000_0000 {
            Score { key: !bits }
        } else {
            Score { key: bits + 0x8000_0000 }
        }
    }

    /// The single-precision bit pattern this score stands for.
    pub fn to_f32_bits(self) -> (r: u32)
        ensures
            score_key_of_bits(r) == self.key,
    {
        if self.key >= 0x8000_0000 {
            self.key - 0x8000_0000
        } else {
            proof {
                let k = self.key;
                assert(!(!k) == k && (k < 0x8000_0000u32 ==> !k >= 0x8000_0000u32))
                    by (bit_vector);
            }
            !self.key
        }
    }

    /// The lowest finite single-precision value; every finite score's key is
    /// at least this one's.
    pub fn min_value() -> (r: Score)
        ensures
            r.key == score_key_of_bits(SCORE_MIN_BITS),
    {
        proof {
            assert(!0xFF7F_FFFFu32 == 0x0080_0000u32) by (bit_vector);
        }
        Score { key: 0x0080_0000 }
    }
}

/// A candidate result: the score a stored vector obtained against the query,
/// and the vector's offset in the index.
#[derive(Clone, Copy, Debug, PartialEq, Eq, Structural)]
pub struct ScoredPointOffset {
    pub score: Score,
    pub idx: PointOffsetType,
}

/// The ordering rule for scored offsets: `a` ranks at least as high as `b`
/// when its score is higher, or the scores are equal and its offset is at
/// least as high. This is a total order, so results are deterministic.
pub open spec fn ranks_ge(a: ScoredPointOffset, b: ScoredPointOffset) -> bool {
    a.score.key > b.score.key || (a.score.key == b.score.key && a.idx >= b.idx)
}

/// The ordering rule as a binary relation, for use with sequence sorting.
pub open spec fn rank_order() -> spec_fn(ScoredPointOffset, ScoredPointOffset) -> bool {
    |a: ScoredPointOffset, b: ScoredPointOffset| ranks_ge(a, b)
}

/// The ordering rule is a total order.
pub proof fn lemma_rank_order_total()
    ensures
        vstd::relations::total_ordering(rank_order()),
{
    let leq = rank_order();
    assert forall|a: ScoredPointOffset, b: ScoredPointOffset| #[trigger]
        leq(a, b) && leq(b, a) implies a == b by {
        assert(a.score.key == b.score.key && a.idx == b.idx);
    }
}

/// Decides the ordering rule.
pub fn ranks_ge_exec(a: ScoredPointOffset, b: ScoredPointOffset) -> (r: bool)
    ensures
        r == ranks_ge(a, b),
{
    a.score.key > b.score.key || (a.score.key == b.score.key && a.idx >= b.idx)
}

} // verus!
