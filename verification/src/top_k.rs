use vstd::prelude::*;
use vstd::relations::sorted_by;
use vstd::seq_lib::lemma_sorted_unique;
use crate::types::{ranks_ge, ranks_ge_exec, rank_order, lemma_rank_order_total, Score,
    ScoredPointOffset, score_key_of_bits, SCORE_MIN_BITS};

verus! {

broadcast use vstd::seq_lib::group_to_multiset_ensures;

/// The canonical descending arrangement of a sequence of scored offsets:
/// highest rank first, under the total ordering rule of `ranks_ge`.
pub open spec fn ranked(s: Seq<ScoredPointOffset>) -> Seq<ScoredPointOffset> {
    s.sort_by(rank_order())
}

/// What the canonical arrangement guarantees: same elements, descending order.
pub proof fn lemma_ranked_ensures(s: Seq<ScoredPointOffset>)
    ensures
        ranked(s).to_multiset() == s.to_multiset(),
        sorted_by(ranked(s), rank_order()),
        ranked(s).len() == s.len(),
{
    lemma_rank_order_total();
    s.lemma_sort_by_ensures(rank_order());
    assert(s.to_multiset().len() == s.len());
    assert(ranked(s).to_multiset().len() == ranked(s).len());
}

proof fn lemma_insert_to_multiset(s: Seq<ScoredPointOffset>, i: int, x: ScoredPointOffset)
    requires
        0 <= i <= s.len(),
    ensures
        s.insert(i, x).to_multiset() == s.to_multiset().insert(x),
{
    vstd::seq_lib::to_multiset_insert(s, i, x);
}

/// Sorts scored offsets into the canonical descending arrangement.
fn sorted_desc(v: &Vec<ScoredPointOffset>) -> (out: Vec<ScoredPointOffset>)
    ensures
        out@ == ranked(v@),
{
    let mut out: Vec<ScoredPointOffset> = Vec::new();
    let mut i: usize = 0;
    while i < v.len()
        invariant
            i <= v@.len(),
            sorted_by(out@, rank_order()),
            out@.to_multiset() == v@.take(i as int).to_multiset(),
        decreases v@.len() - i,
    {
        let e = v[i];
        let ghost pre = out@;
        let mut j: usize = 0;
        while j < out.len() && ranks_ge_exec(out[j], e)
            invariant
                j <= out@.len(),
                out@ == pre,
                forall|t: int| 0 <= t < j ==> ranks_ge(out@[t], e),
            decreases out@.len() - j,
        {
            j += 1;
        }
        proof {
            lemma_rank_order_total();
            if j < pre.len() {
                // the stop position ranks strictly below the new element
                assert(!ranks_ge(pre[j as int], e));
                assert(ranks_ge(e, pre[j as int]));
            }
        }
        out.insert(j, e);
        proof {
            let leq = rank_order();
            assert forall|a: int, b: int| 0 <= a < b < out@.len() implies leq(out@[a], out@[b]) by {
                if b < j {
                    assert(out@[a] == pre[a] && out@[b] == pre[b]);
                } else if b == j {
                    assert(out@[b] == e);
                    if a < j {
                        assert(ranks_ge(pre[a], e));
                    }
                } else {
                    assert(out@[b] == pre[b - 1]);
                    if a < j {
                        assert(out@[a] == pre[a]);
                        assert(leq(pre[a], pre[b - 1]));
                        assert(ranks_ge(pre[a], pre[b - 1]));
                    } else if a == j {
                        assert(out@[a] == e);
                        assert(ranks_ge(e, pre[j as int]));
                        if b - 1 > j {
                            assert(leq(pre[j as int], pre[b - 1]));
                            assert(ranks_ge(pre[j as int], pre[b - 1]));
                        }
                        assert(ranks_ge(e, pre[b - 1]));
                    } else {
                        assert(out@[a] == pre[a - 1]);
                        assert(leq(pre[a - 1], pre[b - 1]));
                        assert(ranks_ge(pre[a - 1], pre[b - 1]));
                    }
                }
            }
            lemma_insert_to_multiset(pre, j as int, e);
            assert(v@.take(i as int + 1) =~= v@.take(i as int).push(v@[i as int]));
        }
        i += 1;
    }
    proof {
        assert(v@.take(v@.len() as int) =~= v@);
        lemma_ranked_ensures(v@);
        lemma_rank_order_total();
        lemma_sorted_unique(out@, ranked(v@), rank_order());
        assert(out@ =~= ranked(v@));
    }
    out
}

/// A bounded bag keeping the k highest-ranking scored offsets seen so far.
///
/// Candidates are appended to a buffer of capacity twice k; when the buffer
/// fills, the k highest-ranking ones are retained and the threshold rises to
/// the k-th best score, so that every two-k pushes cost one selection.
pub struct TopK {
    k: usize,
    elements: Vec<ScoredPointOffset>,
    threshold: Score,
    history: Ghost<Seq<ScoredPointOffset>>,
}

impl TopK {
    /// How many results this collector retains.
    pub closed spec fn spec_k(self) -> usize {
        self.k
    }

    /// The buffered candidates, in buffer order.
    pub closed spec fn buf(self) -> Seq<ScoredPointOffset> {
        self.elements@
    }

    /// The current pruning threshold.
    pub closed spec fn spec_threshold(self) -> Score {
        self.threshold
    }

    /// Every candidate ever offered to this collector, in push order.
    pub closed spec fn history(self) -> Seq<ScoredPointOffset> {
        self.history@
    }

    /// The collector never invents or unduly drops a candidate: whatever is
    /// buffered was pushed, and whatever was pushed is still buffered or
    /// scores at or below the threshold.
    pub closed spec fn sound(self) -> bool {
        &&& (forall|i: int|
            0 <= i < self.elements@.len() ==> self.history@.contains(
                #[trigger] self.elements@[i]))
        &&& (forall|h: ScoredPointOffset|
            #[trigger] self.history@.contains(h) ==> self.elements@.contains(h) || h.score.key
                <= self.threshold.key)
    }

    /// The threshold never sinks under its initial floor, and every
    /// buffered candidate scores strictly above that floor.
    pub closed spec fn above_floor(self) -> bool {
        &&& self.threshold.key >= score_key_of_bits(SCORE_MIN_BITS)
        &&& (forall|i: int|
            0 <= i < self.elements@.len() ==> #[trigger] self.elements@[i].score.key
                > score_key_of_bits(SCORE_MIN_BITS))
    }

    /// Once the threshold has risen above its initial floor, a prune has
    /// happened, so at least k candidates are buffered.
    pub closed spec fn filled(self) -> bool {
        self.threshold.key > score_key_of_bits(SCORE_MIN_BITS) ==> self.elements@.len()
            >= self.k
    }

    /// A history is clean when every candidate in it scores strictly above
    /// the initial threshold floor; only such a candidate can enter an empty
    /// collector at all.
    pub open spec fn clean_history(h: Seq<ScoredPointOffset>) -> bool {
        forall|i: int|
            0 <= i < h.len() ==> #[trigger] h[i].score.key > score_key_of_bits(SCORE_MIN_BITS)
    }

    /// Under a clean history, nothing is lost to the floor: the buffer holds
    /// at least `min(k, pushes)` candidates.
    pub closed spec fn complete_if_clean(self) -> bool {
        Self::clean_history(self.history@) ==> self.elements@.len() >= min_int(self.k as int,
            self.history@.len() as int)
    }

    /// Every buffered candidate scores at least the threshold.
    pub closed spec fn inv_scores(self) -> bool {
        forall|i: int|
            0 <= i < self.elements@.len() ==> #[trigger] self.elements@[i].score.key
                >= self.threshold.key
    }

    /// The collector's invariant: between pushes the buffer stays strictly
    /// under twice k (for a positive k), and every buffered candidate scores
    /// at least the threshold.
    pub closed spec fn wf(self) -> bool {
        &&& 2 * self.k <= usize::MAX
        &&& (self.k > 0 ==> self.elements@.len() < 2 * self.k)
        &&& self.inv_scores()
        &&& self.sound()
        &&& self.above_floor()
        &&& self.filled()
        &&& self.complete_if_clean()
    }

    /// When a prune is meaningful: at least one candidate to select among,
    /// a positive k, and the buffered scores already beat the threshold.
    pub closed spec fn prunable(self) -> bool {
        &&& 2 * self.k <= usize::MAX
        &&& self.k > 0
        &&& self.elements@.len() >= self.k
        &&& self.inv_scores()
        &&& self.sound()
        &&& self.above_floor()
    }

    /// A well-formed collector with a positive k and a buffer grown to k may
    /// always be pruned.
    pub proof fn lemma_wf_prunable(self)
        requires
            self.wf(),
            self.spec_k() > 0,
            self.buf().len() >= self.spec_k(),
        ensures
            self.prunable(),
    {
    }

    /// A fresh collector for the k best results: empty buffer, pre-allocated
    /// at twice k, threshold at the lowest finite score.
    pub fn new(k: usize) -> (r: TopK)
        requires
            2 * k <= usize::MAX,
        ensures
            r.wf(),
            r.spec_k() == k,
            r.buf() == Seq::<ScoredPointOffset>::empty(),
            r.history() == Seq::<ScoredPointOffset>::empty(),
            r.spec_threshold().key == score_key_of_bits(SCORE_MIN_BITS),
    {
        let r = TopK {
            k,
            elements: Vec::with_capacity(2 * k),
            threshold: Score::min_value(),
            history: Ghost(Seq::empty()),
        };
        proof {
            assert(r.elements@ =~= Seq::<ScoredPointOffset>::empty());
        }
        r
    }

    /// Number of buffered candidates.
    pub fn len(&self) -> (r: usize)
        ensures
            r == self.buf().len(),
    {
        self.elements.len()
    }

    /// Whether no candidate is buffered.
    pub fn is_empty(&self) -> (r: bool)
        ensures
            r == (self.buf().len() == 0),
    {
        self.elements.is_empty()
    }

    /// The fixed capacity of the candidate buffer: twice k. The buffer is
    /// pre-allocated at this size and never grows past it.
    pub fn capacity(&self) -> (r: usize)
        requires
            self.wf(),
        ensures
            r == 2 * self.spec_k(),
    {
        2 * self.k
    }

    /// The score every retained result is guaranteed to beat or match.
    /// Updated on every prune; initially the lowest finite score.
    pub fn threshold(&self) -> (r: Score)
        ensures
            r == self.spec_threshold(),
    {
        self.threshold
    }

    /// The buffered candidates, in buffer order.
    pub fn iter(&self) -> (r: &[ScoredPointOffset])
        ensures
            r@ == self.buf(),
    {
        self.elements.as_slice()
    }

    /// Retains the `min(k, len)` highest-ranking buffered candidates and
    /// raises the threshold to the score of the lowest one retained; the
    /// threshold never goes down.
    pub fn prune_elements(&mut self)
        requires
            old(self).prunable(),
        ensures
            final(self).wf(),
            final(self).spec_k() == old(self).spec_k(),
            final(self).buf() == ranked(old(self).buf()).take(min_int(old(self).spec_k() as int,
                old(self).buf().len() as int)),
            final(self).spec_threshold() == ranked(old(self).buf())[min_int(
                old(self).spec_k() as int, old(self).buf().len() as int) - 1].score,
            final(self).spec_threshold().key >= old(self).spec_threshold().key,
            final(self).history() == old(self).history(),
    {
        let ghost pre = self.elements@;
        let sorted = sorted_desc(&self.elements);
        self.elements = sorted;
        let m = if self.k < self.elements.len() {
            self.k
        } else {
            self.elements.len()
        };
        proof {
            lemma_ranked_ensures(pre);
        }
        self.threshold = self.elements[m - 1].score;
        self.elements.truncate(m);
        proof {
            let r = ranked(pre);
            assert(self.elements@ =~= r.take(m as int));
            // the new threshold is the score of one of the old candidates
            assert(r.to_multiset().contains(r[m - 1])) by {
                assert(r.to_multiset().count(r[m - 1]) > 0);
            }
            assert(pre.contains(r[m - 1]));
            let i = choose|i: int| 0 <= i < pre.len() && pre[i] == r[m - 1];
            assert(pre[i].score.key >= old(self).spec_threshold().key);
            // every retained candidate ranks at least as high as the threshold one
            assert forall|t: int| 0 <= t < self.elements@.len() implies #[trigger] self.elements@[t].score.key
                >= self.threshold.key by {
                if t < m - 1 {
                    assert(rank_order()(r[t], r[m - 1]));
                    assert(ranks_ge(r[t], r[m - 1]));
                }
            }
            // whatever stays buffered was pushed
            assert forall|t: int| 0 <= t < self.elements@.len() implies self.history@.contains(
                #[trigger] self.elements@[t]) by {
                assert(r.to_multiset().count(r[t]) > 0);
                assert(pre.contains(r[t]));
                let u = choose|u: int| 0 <= u < pre.len() && pre[u] == r[t];
                assert(self.history@.contains(pre[u]));
            }
            // whatever was pushed is still buffered or lies at or under the
            // raised threshold
            assert forall|h: ScoredPointOffset| #[trigger] self.history@.contains(h)
                implies self.elements@.contains(h) || h.score.key <= self.threshold.key by {
                if pre.contains(h) {
                    assert(pre.to_multiset().count(h) > 0);
                    assert(r.contains(h));
                    let idx = choose|idx: int| 0 <= idx < r.len() && r[idx] == h;
                    if idx < m {
                        assert(self.elements@[idx] == h);
                        assert(self.elements@.contains(h));
                    } else {
                        assert(rank_order()(r[m - 1], r[idx]));
                        assert(ranks_ge(r[m - 1], r[idx]));
                    }
                }
            }
        }
    }

    /// Offers a candidate. A candidate scoring at or below the threshold is
    /// ignored; otherwise it is buffered, and a buffer grown to twice k is
    /// pruned at once. Returns whether the candidate still beats the
    /// threshold afterwards, that is, whether it may end up in the results.
    /// The threshold never goes down.
    pub fn push(&mut self, element: ScoredPointOffset) -> (accepted: bool)
        requires
            old(self).wf(),
        ensures
            final(self).wf(),
            final(self).spec_k() == old(self).spec_k(),
            final(self).spec_threshold().key >= old(self).spec_threshold().key,
            final(self).history() == old(self).history().push(element),
            element.score.key <= old(self).spec_threshold().key ==> final(self).buf() == old(
                self).buf() && final(self).spec_threshold() == old(self).spec_threshold()
                && !accepted,
            element.score.key > old(self).spec_threshold().key && old(self).buf().len() + 1 != 2
                * old(self).spec_k() ==> final(self).buf() == old(self).buf().push(element)
                && final(self).spec_threshold() == old(self).spec_threshold(),
            element.score.key > old(self).spec_threshold().key && old(self).buf().len() + 1 == 2
                * old(self).spec_k() ==> final(self).buf() == ranked(old(self).buf().push(
                element)).take(old(self).spec_k() as int) && final(self).spec_threshold()
                == ranked(old(self).buf().push(element))[old(self).spec_k() - 1].score,
            accepted == (element.score.key > final(self).spec_threshold().key),
    {
        proof {
            self.history@ = self.history@.push(element);
        }
        if element.score.key > self.threshold.key {
            self.elements.push(element);
            proof {
                let h0 = old(self).history@;
                assert forall|t: int| 0 <= t < self.elements@.len()
                    implies self.history@.contains(#[trigger] self.elements@[t]) by {
                    if t < self.elements@.len() - 1 {
                        assert(old(self).elements@[t] == self.elements@[t]);
                        assert(h0.contains(self.elements@[t]));
                        let u = choose|u: int| 0 <= u < h0.len() && h0[u] == self.elements@[t];
                        assert(self.history@[u] == self.elements@[t]);
                    } else {
                        assert(self.history@[self.history@.len() - 1] == element);
                    }
                }
                assert forall|h: ScoredPointOffset| #[trigger] self.history@.contains(h)
                    implies self.elements@.contains(h) || h.score.key <= self.threshold.key by {
                    let u = choose|u: int|
                        0 <= u < self.history@.len() && self.history@[u] == h;
                    if u < h0.len() {
                        assert(h0[u] == h);
                        assert(h0.contains(h));
                        if old(self).elements@.contains(h) {
                            let t = choose|t: int|
                                0 <= t < old(self).elements@.len() && old(self).elements@[t]
                                    == h;
                            assert(self.elements@[t] == h);
                        }
                    } else {
                        assert(h == element);
                        assert(self.elements@[self.elements@.len() - 1] == element);
                    }
                }
                // the appended candidate scores above the floor, like the rest
                assert forall|t: int| 0 <= t < self.elements@.len()
                    implies #[trigger] self.elements@[t].score.key > score_key_of_bits(
                    SCORE_MIN_BITS) by {
                    if t < self.elements@.len() - 1 {
                        assert(old(self).elements@[t] == self.elements@[t]);
                    }
                }
                // a clean extended history was clean before the push
                if Self::clean_history(self.history@) {
                    assert forall|t: int| 0 <= t < h0.len()
                        implies #[trigger] h0[t].score.key > score_key_of_bits(SCORE_MIN_BITS)
                        by {
                        assert(self.history@[t] == h0[t]);
                    }
                    assert(Self::clean_history(h0));
                }
            }
            if self.elements.len() == 2 * self.k {
                self.prune_elements();
            }
            return element.score.key > self.threshold.key;
        }
        proof {
            // the rejected candidate lies at or under the threshold; every
            // other pushed candidate stands as before
            let h0 = old(self).history@;
            assert forall|h: ScoredPointOffset| #[trigger] self.history@.contains(h)
                implies self.elements@.contains(h) || h.score.key <= self.threshold.key by {
                let u = choose|u: int| 0 <= u < self.history@.len() && self.history@[u] == h;
                if u < h0.len() {
                    assert(h0[u] == h);
                    assert(h0.contains(h));
                } else {
                    assert(h == element);
                }
            }
            assert forall|t: int| 0 <= t < self.elements@.len() implies self.history@.contains(
                #[trigger] self.elements@[t]) by {
                assert(h0.contains(self.elements@[t]));
                let u = choose|u: int| 0 <= u < h0.len() && h0[u] == self.elements@[t];
                assert(self.history@[u] == self.elements@[t]);
            }
            // a clean history keeps the completeness bound: the rejected
            // candidate lay at or under a threshold already above the floor,
            // so the buffer already holds k candidates
            if Self::clean_history(self.history@) {
                assert(self.history@[self.history@.len() - 1] == element);
                assert(element.score.key > score_key_of_bits(SCORE_MIN_BITS));
                assert(self.threshold.key > score_key_of_bits(SCORE_MIN_BITS));
                assert(self.elements@.len() >= self.k);
                assert forall|t: int| 0 <= t < h0.len()
                    implies #[trigger] h0[t].score.key > score_key_of_bits(SCORE_MIN_BITS) by {
                    assert(self.history@[t] == h0[t]);
                }
                assert(Self::clean_history(h0));
            }
        }
        false
    }

    /// The `min(k, len)` highest-ranking buffered candidates, highest first.
    pub fn into_vec(self) -> (r: Vec<ScoredPointOffset>)
        ensures
            r@ == ranked(self.buf()).take(min_int(self.spec_k() as int,
                self.buf().len() as int)),
    {
        let sorted = sorted_desc(&self.elements);
        let mut out = sorted;
        let m = if self.k < out.len() {
            self.k
        } else {
            out.len()
        };
        proof {
            lemma_ranked_ensures(self.elements@);
        }
        out.truncate(m);
        proof {
            assert(out@ =~= ranked(self.elements@).take(m as int));
        }
        out
    }
}

/// Top-k correctness, the global half: the collector retains only pushed
/// candidates; every pushed candidate it has dropped scores at or below the
/// threshold, and every retained one scores at or above it. So no dropped
/// candidate outscores a retained one, and `into_vec`, which returns the
/// highest-ranking `min(k, len)` retained candidates in descending rank
/// order, returns the k highest-scoring pushed candidates up to ties on the
/// threshold score itself.
pub proof fn lemma_top_k_sound(t: TopK)
    requires
        t.wf(),
    ensures
        forall|i: int| 0 <= i < t.buf().len() ==> t.history().contains(#[trigger] t.buf()[i]),
        forall|h: ScoredPointOffset|
            #[trigger] t.history().contains(h) ==> t.buf().contains(h) || h.score.key
                <= t.spec_threshold().key,
        forall|i: int|
            0 <= i < t.buf().len() ==> #[trigger] t.buf()[i].score.key
                >= t.spec_threshold().key,
{
}

/// Top-k correctness, the selection half: when no two pushed candidates tie
/// on the score, every candidate in the sorted result — the first
/// `min(k, len)` of the canonical arrangement of the buffer, which is what
/// `into_vec` returns — scores strictly higher than every pushed candidate
/// left out of it.
pub proof fn lemma_top_k_selects_best(t: TopK, h: ScoredPointOffset, e: ScoredPointOffset)
    requires
        t.wf(),
        forall|a: int, b: int|
            0 <= a < b < t.history().len() ==> t.history()[a].score.key != t.history()[
            b].score.key,
        t.history().contains(h),
        !ranked(t.buf()).take(min_int(t.spec_k() as int, t.buf().len() as int)).contains(h),
        ranked(t.buf()).take(min_int(t.spec_k() as int, t.buf().len() as int)).contains(e),
    ensures
        e.score.key > h.score.key,
{
    let m = min_int(t.spec_k() as int, t.buf().len() as int);
    let r = ranked(t.buf());
    let res = r.take(m);
    lemma_ranked_ensures(t.buf());
    lemma_rank_order_total();
    let ie = choose|ie: int| 0 <= ie < res.len() && res[ie] == e;
    assert(r[ie] == e);
    // the result element was buffered, hence pushed
    assert(r.to_multiset().count(e) > 0);
    assert(t.buf().contains(e));
    let be = choose|be: int| 0 <= be < t.buf().len() && t.buf()[be] == e;
    assert(t.history().contains(t.buf()[be]));
    // distinct scores make distinct candidates score apart
    assert(e != h);
    assert(e.score.key != h.score.key) by {
        let a = choose|a: int| 0 <= a < t.history().len() && t.history()[a] == e;
        let b = choose|b: int| 0 <= b < t.history().len() && t.history()[b] == h;
        assert(a != b);
    }
    if t.buf().contains(h) {
        // cut at the selection boundary: it ranks below the result element
        assert(t.buf().to_multiset().count(h) > 0);
        assert(r.contains(h));
        let ih = choose|ih: int| 0 <= ih < r.len() && r[ih] == h;
        assert(ih >= m) by {
            if ih < m {
                assert(res[ih] == h);
            }
        }
        assert(rank_order()(r[ie], r[ih]));
        assert(ranks_ge(e, h));
    } else {
        // dropped by a push or a prune: it lies at or under the threshold,
        // which every buffered candidate reaches
        assert(h.score.key <= t.spec_threshold().key);
        assert(t.buf()[be].score.key >= t.spec_threshold().key);
    }
}

/// Top-k correctness, the cardinality half: as long as every pushed
/// candidate scores strictly above the initial threshold floor (the lowest
/// finite score), the buffer holds at least `min(k, pushes)` candidates, so
/// `into_vec` returns k results once k candidates were pushed, and all of
/// them when fewer were. A candidate at or under the floor is rejected even
/// by an empty collector, which is why the floor condition is needed.
pub proof fn lemma_top_k_completes(t: TopK)
    requires
        t.wf(),
        TopK::clean_history(t.history()),
    ensures
        t.buf().len() >= min_int(t.spec_k() as int, t.history().len() as int),
{
}

/// Top-k capacity bound: between pushes the buffer of a collector with a
/// positive k holds strictly fewer than twice k candidates, so the storage
/// pre-allocated at twice k never grows.
pub proof fn lemma_capacity_bound(t: TopK)
    requires
        t.wf(),
        t.spec_k() > 0,
    ensures
        t.buf().len() < 2 * t.spec_k(),
{
}

/// The smaller of two integers.
pub open spec fn min_int(a: int, b: int) -> int {
    if a < b {
        a
    } else {
        b
    }
}

} // verus!
