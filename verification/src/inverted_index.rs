use vstd::prelude::*;
use crate::types::{DimId, PointOffsetType};
use crate::weight::Weight;
use crate::posting_list_common::{PostingElement, ids_ascending, ids_distinct};
use crate::compressed_posting_list::{CompressedPostingBuilder, CompressedPostingList};

verus! {

/// A sparse vector whose dimension ids have been renumbered into the dense
/// range of one index: strictly ascending indices, one weight per index.
pub struct RemappedSparseVector<W> {
    /// Strictly ascending dimension ids.
    pub indices: Vec<DimId>,
    /// The weight of each dimension, in the same order.
    pub values: Vec<W>,
}

impl<W: Weight> RemappedSparseVector<W> {
    /// The sparse-vector invariant: parallel sequences of equal length, with
    /// strictly ascending dimension ids.
    pub open spec fn valid(&self) -> bool {
        &&& self.indices@.len() == self.values@.len()
        &&& forall|i: int, j: int|
            0 <= i < j < self.indices@.len() ==> #[trigger] self.indices@[i]
                < #[trigger] self.indices@[j]
    }

    /// The vector with the given indices and weights.
    pub fn new(indices: Vec<DimId>, values: Vec<W>) -> (r: Self)
        ensures
            r.indices@ == indices@,
            r.values@ == values@,
    {
        RemappedSparseVector { indices, values }
    }
}

/// An immutable in-memory inverted index: one compressed posting list per
/// dimension, and the number of vectors it holds.
pub struct InvertedIndexRam<W> {
    /// One posting list per dimension id, dense from zero.
    pub postings: Vec<CompressedPostingList<W>>,
    /// Number of unique indexed vectors.
    pub vector_count: usize,
}

impl<W: Weight> InvertedIndexRam<W> {
    /// Every posting list is well formed with strictly ascending record ids.
    pub open spec fn wf(&self) -> bool {
        forall|d: int|
            0 <= d < self.postings@.len() ==> (#[trigger] self.postings@[d].wf()
                && ids_ascending(self.postings@[d]@))
    }

    /// The posting list of one dimension, or nothing beyond the index range.
    pub fn get(&self, dim: DimId) -> (r: Option<&CompressedPostingList<W>>)
        ensures
            (dim as int) < self.postings@.len() ==> r == Some(&self.postings@[dim as int]),
            (dim as int) >= self.postings@.len() ==> r == None::<&CompressedPostingList<W>>,
    {
        if (dim as usize) < self.postings.len() {
            Some(&self.postings[dim as usize])
        } else {
            None
        }
    }

    /// Number of unique indexed vectors.
    pub fn vector_count(&self) -> (r: usize)
        ensures
            r == self.vector_count,
    {
        self.vector_count
    }
}

/// Accumulates remapped sparse vectors and emits an in-memory inverted index.
pub struct InvertedIndexBuilder<W> {
    /// One posting builder per dimension seen so far.
    pub posting_builders: Vec<CompressedPostingBuilder<W>>,
    /// Number of vectors added so far.
    pub vector_count: usize,
}

/// The first `i` emitted posting lists are each well formed, ascending, and
/// hold exactly their builder's entries.
spec fn postings_ok<W: Weight>(postings: Seq<CompressedPostingList<W>>, bs: Seq<
    CompressedPostingBuilder<W>>, i: int) -> bool {
    forall|d: int|
        0 <= d < i ==> (#[trigger] postings[d].wf() && ids_ascending(postings[d]@) && postings[
        d]@.len() == bs[d]@.len() && postings[d]@.to_multiset() == bs[d]@.to_multiset())
}

/// The posting entry one vector contributes to dimension `d`: one entry
/// where the vector touches `d`, nothing otherwise.
pub open spec fn vector_dim_entry<W: Weight>(id: PointOffsetType, v: RemappedSparseVector<W>,
    d: int) -> Seq<PostingElement<W>> {
    if exists|j: int| 0 <= j < v.indices@.len() && v.indices@[j] == d {
        let j = choose|j: int| 0 <= j < v.indices@.len() && v.indices@[j] == d;
        seq![(PostingElement { record_id: id, weight: v.values@[j] })]
    } else {
        Seq::<PostingElement<W>>::empty()
    }
}

/// Every entry a batch of `(id, vector)` items contributes to dimension `d`,
/// in batch order.
pub open spec fn batch_dim_entries<W: Weight>(items: Seq<(PointOffsetType, RemappedSparseVector<
    W>)>, d: int) -> Seq<PostingElement<W>>
    decreases items.len(),
{
    if items.len() == 0 {
        Seq::<PostingElement<W>>::empty()
    } else {
        batch_dim_entries(items.drop_last(), d) + vector_dim_entry(items.last().0,
            items.last().1, d)
    }
}

/// One past the highest dimension a batch touches, or zero.
pub open spec fn batch_width<W: Weight>(items: Seq<(PointOffsetType, RemappedSparseVector<W>)>,
) -> int
    decreases items.len(),
{
    if items.len() == 0 {
        0int
    } else {
        let rest = batch_width(items.drop_last());
        let v = items.last().1;
        if v.indices@.len() == 0 {
            rest
        } else if rest > v.indices@.last() + 1 {
            rest
        } else {
            v.indices@.last() + 1
        }
    }
}

/// A valid sparse vector touches each dimension at most once.
proof fn lemma_index_unique<W: Weight>(v: RemappedSparseVector<W>, j1: int, j2: int)
    requires
        v.valid(),
        0 <= j1 < v.indices@.len(),
        0 <= j2 < v.indices@.len(),
        v.indices@[j1] == v.indices@[j2],
    ensures
        j1 == j2,
{
    if j1 < j2 {
        assert(v.indices@[j1] < v.indices@[j2]);
    }
    if j2 < j1 {
        assert(v.indices@[j2] < v.indices@[j1]);
    }
}

/// Entry `t` of dimension `d`'s accumulated postings carries the id of one
/// of the first `i` items of a batch.
spec fn sourced<W: Weight>(builders: Seq<CompressedPostingBuilder<W>>, its: Seq<(PointOffsetType,
    RemappedSparseVector<W>)>, i: int, d: int, t: int) -> bool {
    exists|s: int| 0 <= s < i && (#[trigger] its[s]).0 == dim_posting(builders, d)[t].record_id
}

/// The entries accumulated for one dimension: the builder's contents inside
/// the range, nothing beyond it.
pub open spec fn dim_posting<W: Weight>(builders: Seq<CompressedPostingBuilder<W>>, d: int) -> Seq<
    PostingElement<W>> {
    if 0 <= d < builders.len() {
        builders[d]@
    } else {
        Seq::<PostingElement<W>>::empty()
    }
}

impl<W: Weight> Default for InvertedIndexBuilder<W> {
    fn default() -> (r: Self)
        ensures
            r.posting_builders@.len() == 0,
            r.vector_count == 0,
    {
        Self::new()
    }
}

impl<W: Weight> InvertedIndexBuilder<W> {
    /// A builder with no vectors.
    pub fn new() -> (r: Self)
        ensures
            r.posting_builders@.len() == 0,
            r.vector_count == 0,
    {
        InvertedIndexBuilder { posting_builders: Vec::new(), vector_count: 0 }
    }

    /// Adds one vector: appends `(id, weight)` to the posting builder of
    /// every dimension the vector touches, growing the dimension range on
    /// demand, and counts the vector. The id must be new to every touched
    /// dimension.
    pub fn add(&mut self, id: PointOffsetType, vector: RemappedSparseVector<W>)
        requires
            vector.valid(),
            old(self).vector_count < usize::MAX,
            forall|j: int, t: int|
                0 <= j < vector.indices@.len() && 0 <= t < dim_posting(
                    old(self).posting_builders@, vector.indices@[j] as int).len()
                    ==> #[trigger] dim_posting(old(self).posting_builders@,
                    vector.indices@[j] as int)[t].record_id != id,
        ensures
            final(self).vector_count == old(self).vector_count + 1,
            final(self).posting_builders@.len() == (if vector.indices@.len() == 0 {
                old(self).posting_builders@.len() as int
            } else if old(self).posting_builders@.len() > vector.indices@.last() + 1 {
                old(self).posting_builders@.len() as int
            } else {
                vector.indices@.last() + 1
            }),
            forall|j: int|
                0 <= j < vector.indices@.len() ==> dim_posting(final(self).posting_builders@,
                    vector.indices@[j] as int) == dim_posting(old(self).posting_builders@,
                    vector.indices@[j] as int).push((PostingElement {
                    record_id: id,
                    weight: vector.values@[j],
                })),
            forall|d: int|
                !(exists|j: int| 0 <= j < vector.indices@.len() && vector.indices@[j] == d)
                    ==> dim_posting(final(self).posting_builders@, d) == dim_posting(old(
                    self).posting_builders@, d),
    {
        let ghost old_builders = old(self).posting_builders@;
        let n = vector.indices.len();
        let mut j: usize = 0;
        while j < n
            invariant
                vector.valid(),
                n == vector.indices@.len(),
                0 <= j <= n,
                self.vector_count == old(self).vector_count,
                old_builders == old(self).posting_builders@,
                self.posting_builders@.len() == (if j == 0 {
                    old_builders.len() as int
                } else if old_builders.len() > vector.indices@[j - 1] + 1 {
                    old_builders.len() as int
                } else {
                    vector.indices@[j - 1] + 1
                }),
                forall|t: int|
                    0 <= t < j ==> dim_posting(self.posting_builders@,
                        vector.indices@[t] as int) == dim_posting(old_builders,
                        vector.indices@[t] as int).push((PostingElement {
                        record_id: id,
                        weight: vector.values@[t],
                    })),
                forall|d: int|
                    !(exists|t: int| 0 <= t < j && vector.indices@[t] == d) ==> dim_posting(
                        self.posting_builders@, d) == dim_posting(old_builders, d),
            decreases n - j,
        {
            let dim = vector.indices[j] as usize;
            let ghost pre = self.posting_builders@;
            let ghost grown: int = if pre.len() > dim as int {
                pre.len() as int
            } else {
                dim as int + 1
            };
            while self.posting_builders.len() <= dim
                invariant
                    self.vector_count == old(self).vector_count,
                    pre.len() <= self.posting_builders@.len() <= grown,
                    grown == (if pre.len() > dim as int {
                        pre.len() as int
                    } else {
                        dim as int + 1
                    }),
                    forall|d: int|
                        0 <= d < pre.len() ==> #[trigger] self.posting_builders@[d] == pre[d],
                    forall|d: int|
                        pre.len() <= d < self.posting_builders@.len()
                            ==> #[trigger] self.posting_builders@[d]@ == Seq::<PostingElement<
                            W>>::empty(),
                decreases dim + 1 - self.posting_builders@.len(),
            {
                self.posting_builders.push(CompressedPostingBuilder::new());
            }
            proof {
                assert(self.posting_builders@.len() == grown);
            }
            proof {
                assert forall|d: int| 0 <= d implies dim_posting(self.posting_builders@, d)
                    == dim_posting(pre, d) by {
                }
            }
            let ghost mid = self.posting_builders@;
            self.posting_builders[dim].add(id, vector.values[j]);
            proof {
                assert(self.posting_builders@ == mid.update(dim as int, self.posting_builders@[
                    dim as int]));
                assert(dim_posting(self.posting_builders@, dim as int) == dim_posting(mid,
                    dim as int).push((PostingElement {
                    record_id: id,
                    weight: vector.values@[j as int],
                })));
                assert forall|d: int| d != dim as int implies dim_posting(self.posting_builders@,
                    d) == dim_posting(mid, d) by {
                }
                assert forall|t: int| 0 <= t < j + 1 implies dim_posting(self.posting_builders@,
                    vector.indices@[t] as int) == dim_posting(old_builders,
                    vector.indices@[t] as int).push((PostingElement {
                    record_id: id,
                    weight: vector.values@[t],
                })) by {
                    if t < j {
                        assert(vector.indices@[t] < vector.indices@[j as int]);
                    }
                }
            }
            j += 1;
        }
        self.vector_count = self.vector_count + 1;
    }

    /// Consumes the builder: emits every dimension's compressed posting list
    /// in order, and carries the vector count over.
    #[verifier::rlimit(50)]
    pub fn build(self) -> (r: InvertedIndexRam<W>)
        requires
            forall|d: int|
                0 <= d < self.posting_builders@.len() ==> ids_distinct(
                    #[trigger] self.posting_builders@[d]@) && self.posting_builders@[d]@.len()
                    <= 0x3FFF_FFFF,
        ensures
            r.wf(),
            r.vector_count == self.vector_count,
            r.postings@.len() == self.posting_builders@.len(),
            forall|d: int|
                0 <= d < r.postings@.len() ==> (#[trigger] r.postings@[d]@.len()
                    == self.posting_builders@[d]@.len() && r.postings@[d]@.to_multiset()
                    == self.posting_builders@[d]@.to_multiset()),
    {
        let ghost bs = self.posting_builders@;
        let mut builders = self.posting_builders;
        let nb = builders.len();
        proof {
            assert(bs.len() == nb);
        }
        let mut postings: Vec<CompressedPostingList<W>> = Vec::new();
        let mut i: usize = 0;
        while builders.len() > 0
            invariant
                bs.len() <= usize::MAX,
                i + builders@.len() == bs.len(),
                builders@ == bs.subrange(i as int, bs.len() as int),
                postings@.len() == i,
                forall|d: int|
                    0 <= d < bs.len() ==> ids_distinct(#[trigger] bs[d]@) && bs[d]@.len()
                        <= 0x3FFF_FFFF,
                postings_ok(postings@, bs, i as int),
            decreases builders@.len(),
        {
            let b = builders.remove(0);
            proof {
                assert(b == bs[i as int]);
                assert(builders@ =~= bs.subrange(i as int + 1, bs.len() as int));
            }
            let list = b.build();
            let ghost prev = postings@;
            postings.push(list);
            proof {
                assert forall|d: int| 0 <= d < postings@.len() implies (#[trigger] postings@[
                    d].wf() && ids_ascending(postings@[d]@) && postings@[d]@.len() == bs[d]@.len()
                    && postings@[d]@.to_multiset() == bs[d]@.to_multiset()) by {
                    if d < prev.len() {
                        assert(prev[d].wf() && ids_ascending(prev[d]@) && prev[d]@.len() == bs[
                            d]@.len() && prev[d]@.to_multiset() == bs[d]@.to_multiset());
                        assert(postings@[d] == prev[d]);
                    } else {
                        assert(postings@[d] == list);
                        assert(list.wf());
                        assert(ids_ascending(list@));
                        assert(list@.len() == bs[d]@.len());
                        assert(list@.to_multiset() == bs[d]@.to_multiset());
                    }
                }
                assert(postings_ok(postings@, bs, postings@.len() as int));
            }
            i += 1;
        }
        proof {
            assert(postings_ok(postings@, bs, i as int));
            assert forall|d: int| 0 <= d < postings@.len() implies (#[trigger] postings@[d]@.len()
                == bs[d]@.len() && postings@[d]@.to_multiset() == bs[d]@.to_multiset()
                && postings@[d].wf() && ids_ascending(postings@[d]@)) by {
                assert(0 <= d < i as int);
                assert(postings@[d].wf() && ids_ascending(postings@[d]@) && postings@[d]@.len()
                    == bs[d]@.len() && postings@[d]@.to_multiset() == bs[d]@.to_multiset());
            }
        }
        InvertedIndexRam { postings, vector_count: self.vector_count }
    }

    /// Builds an index from a batch of `(id, vector)` pairs: every vector
    /// valid, the ids distinct, and not more pairs than a posting list holds.
    /// The result is the index the pairs describe: one posting list per
    /// dimension up to the highest one touched, each holding exactly the
    /// entries of the items that touch it, in ascending record-id order.
    pub fn build_from_iterator(items: Vec<(PointOffsetType, RemappedSparseVector<W>)>) -> (r:
        InvertedIndexRam<W>)
        requires
            items@.len() <= 0x3FFF_FFFF,
            forall|s: int| 0 <= s < items@.len() ==> (#[trigger] items@[s].1).valid(),
            forall|a: int, b: int|
                0 <= a < b < items@.len() ==> (#[trigger] items@[a].0) != (#[trigger] items@[
                b].0),
        ensures
            r.wf(),
            r.vector_count == items@.len(),
            r.postings@.len() == batch_width(items@),
            forall|d: int|
                0 <= d < r.postings@.len() ==> (#[trigger] r.postings@[d]@.len()
                    == batch_dim_entries(items@, d).len() && r.postings@[d]@.to_multiset()
                    == batch_dim_entries(items@, d).to_multiset()),
    {
        let ghost its = items@;
        let mut items = items;
        let mut builder = InvertedIndexBuilder::new();
        let mut i: usize = 0;
        while items.len() > 0
            invariant
                i + items@.len() == its.len(),
                its.len() <= 0x3FFF_FFFF,
                items@ == its.subrange(i as int, its.len() as int),
                builder.vector_count == i,
                forall|s: int| 0 <= s < its.len() ==> (#[trigger] its[s].1).valid(),
                forall|a: int, b: int|
                    0 <= a < b < its.len() ==> (#[trigger] its[a].0) != (#[trigger] its[b].0),
                forall|d: int|
                    ids_distinct(#[trigger] dim_posting(builder.posting_builders@, d))
                        && dim_posting(builder.posting_builders@, d).len() <= i,
                forall|d: int, t: int|
                    0 <= t < dim_posting(builder.posting_builders@, d).len()
                        ==> #[trigger] sourced(builder.posting_builders@, its, i as int, d, t),
                builder.posting_builders@.len() == batch_width(its.take(i as int)),
                forall|d: int|
                    #[trigger] dim_posting(builder.posting_builders@, d) == batch_dim_entries(
                        its.take(i as int), d),
            decreases items@.len(),
        {
            let (id, vector) = items.remove(0);
            proof {
                assert((id, vector) == its[i as int]);
                assert(items@ =~= its.subrange(i as int + 1, its.len() as int));
                assert(id == its[i as int].0);
                // the id is fresh for every dimension the vector touches
                assert(vector == its[i as int].1);
                assert forall|j: int, t: int|
                    0 <= j < vector.indices@.len() && 0 <= t < dim_posting(
                        builder.posting_builders@, vector.indices@[j] as int).len()
                    implies #[trigger] dim_posting(builder.posting_builders@,
                    vector.indices@[j] as int)[t].record_id != id by {
                    let d = vector.indices@[j] as int;
                    assert(sourced(builder.posting_builders@, its, i as int, d, t));
                    let s = choose|s: int|
                        0 <= s < i && (#[trigger] its[s]).0 == dim_posting(
                        builder.posting_builders@, d)[t].record_id;
                    assert(its[s].0 != its[i as int].0);
                }
            }
            let ghost pre = builder.posting_builders@;
            builder.add(id, vector);
            proof {
                assert forall|d: int| ids_distinct(#[trigger] dim_posting(
                    builder.posting_builders@, d)) && dim_posting(builder.posting_builders@,
                    d).len() <= i + 1 by {
                    lemma_dim_posting_step(pre, builder.posting_builders@, its, i as int, d,
                        vector);
                }
                assert forall|d: int, t: int|
                    0 <= t < dim_posting(builder.posting_builders@, d).len()
                    implies #[trigger] sourced(builder.posting_builders@, its, i as int + 1, d,
                    t) by {
                    lemma_dim_posting_step(pre, builder.posting_builders@, its, i as int, d,
                        vector);
                    if t < dim_posting(pre, d).len() && dim_posting(builder.posting_builders@,
                        d)[t] == dim_posting(pre, d)[t] {
                        assert(sourced(pre, its, i as int, d, t));
                        let s = choose|s: int|
                            0 <= s < i && (#[trigger] its[s]).0 == dim_posting(pre, d)[
                            t].record_id;
                        assert(0 <= s < i + 1 && its[s].0 == dim_posting(
                            builder.posting_builders@, d)[t].record_id);
                    } else {
                        assert(its[i as int].0 == dim_posting(builder.posting_builders@, d)[
                            t].record_id);
                    }
                }
                // the builder now mirrors the batch model one item further
                let pre_take = its.take(i as int);
                let post_take = its.take(i as int + 1);
                assert(post_take.drop_last() =~= pre_take);
                assert(post_take.last() == its[i as int]);
                assert(batch_width(post_take) == builder.posting_builders@.len());
                assert forall|d: int| #[trigger] dim_posting(builder.posting_builders@, d)
                    == batch_dim_entries(post_take, d) by {
                    assert(batch_dim_entries(post_take, d) == batch_dim_entries(pre_take, d)
                        + vector_dim_entry(id, vector, d));
                    assert(dim_posting(pre, d) == batch_dim_entries(pre_take, d));
                    if exists|j: int| 0 <= j < vector.indices@.len() && vector.indices@[j] == d {
                        let j = choose|j: int|
                            0 <= j < vector.indices@.len() && vector.indices@[j] == d;
                        assert(dim_posting(builder.posting_builders@, vector.indices@[j] as int)
                            == dim_posting(pre, vector.indices@[j] as int).push((PostingElement {
                            record_id: id,
                            weight: vector.values@[j],
                        })));
                        let jc = choose|jc: int|
                            0 <= jc < vector.indices@.len() && vector.indices@[jc] == d;
                        lemma_index_unique(vector, j, jc);
                        assert(vector_dim_entry(id, vector, d) == seq![(PostingElement {
                            record_id: id,
                            weight: vector.values@[j],
                        })]);
                        assert(dim_posting(pre, d).push((PostingElement {
                            record_id: id,
                            weight: vector.values@[j],
                        })) =~= batch_dim_entries(pre_take, d) + vector_dim_entry(id, vector, d));
                    } else {
                        assert(dim_posting(builder.posting_builders@, d) == dim_posting(pre, d));
                        assert(batch_dim_entries(pre_take, d) + vector_dim_entry(id, vector, d)
                            =~= batch_dim_entries(pre_take, d));
                    }
                }
            }
            i += 1;
        }
        proof {
            assert(its.take(its.len() as int) =~= its);
            assert forall|d: int| 0 <= d < builder.posting_builders@.len() implies ids_distinct(
                #[trigger] builder.posting_builders@[d]@) && builder.posting_builders@[d]@.len()
                <= 0x3FFF_FFFF by {
                assert(ids_distinct(dim_posting(builder.posting_builders@, d)));
                assert(dim_posting(builder.posting_builders@, d) == builder.posting_builders@[
                    d]@);
            }
        }
        let ghost done = builder.posting_builders@;
        let r = builder.build();
        proof {
            assert(r.postings@.len() == done.len());
            assert forall|d: int| 0 <= d < r.postings@.len() implies (#[trigger] r.postings@[
                d]@.len() == batch_dim_entries(its, d).len() && r.postings@[d]@.to_multiset()
                == batch_dim_entries(its, d).to_multiset()) by {
                assert(0 <= d < done.len());
                assert(r.postings@[d]@.len() == done[d]@.len());
                assert(r.postings@[d]@.to_multiset() == done[d]@.to_multiset());
                assert(dim_posting(done, d) == done[d]@);
                assert(dim_posting(done, d) == batch_dim_entries(its, d));
            }
        }
        r
    }
}

/// After one vector is added, each dimension's entries either stand as they
/// were or carry one appended entry for the new id.
proof fn lemma_dim_posting_step<W: Weight>(pre: Seq<CompressedPostingBuilder<W>>, post: Seq<
    CompressedPostingBuilder<W>>, its: Seq<(PointOffsetType, RemappedSparseVector<W>)>, i: int,
    d: int, vector: RemappedSparseVector<W>)
    requires
        0 <= i < its.len(),
        vector.valid(),
        forall|dd: int|
            ids_distinct(#[trigger] dim_posting(pre, dd)) && dim_posting(pre, dd).len() <= i,
        forall|dd: int, t: int|
            0 <= t < dim_posting(pre, dd).len() ==> #[trigger] sourced(pre, its, i, dd, t),
        forall|a: int, b: int| 0 <= a < b < its.len() ==> (#[trigger] its[a].0) != (#[trigger] its[b].0),
        forall|j: int|
            0 <= j < vector.indices@.len() ==> dim_posting(post, vector.indices@[j] as int)
                == dim_posting(pre, vector.indices@[j] as int).push((PostingElement {
                record_id: its[i].0,
                weight: vector.values@[j],
            })),
        forall|dd: int|
            !(exists|j: int| 0 <= j < vector.indices@.len() && vector.indices@[j] == dd)
                ==> dim_posting(post, dd) == dim_posting(pre, dd),
    ensures
        ids_distinct(dim_posting(post, d)),
        dim_posting(post, d).len() <= i + 1,
        dim_posting(post, d) == dim_posting(pre, d) || (dim_posting(post, d).len()
            == dim_posting(pre, d).len() + 1 && dim_posting(post, d).last().record_id == its[i].0
            && forall|t: int|
            0 <= t < dim_posting(pre, d).len() ==> dim_posting(post, d)[t] == dim_posting(pre,
                d)[t]),
{
    if exists|j: int| 0 <= j < vector.indices@.len() && vector.indices@[j] == d {
        let j = choose|j: int| 0 <= j < vector.indices@.len() && vector.indices@[j] == d;
        let e = PostingElement { record_id: its[i].0, weight: vector.values@[j] };
        assert(dim_posting(post, d) == dim_posting(pre, d).push(e));
        assert forall|a: int, b: int|
            0 <= a < b < dim_posting(post, d).len() implies #[trigger] dim_posting(post, d)[
            a].record_id != #[trigger] dim_posting(post, d)[b].record_id by {
            if b == dim_posting(pre, d).len() {
                assert(sourced(pre, its, i, d, a));
                let s = choose|s: int|
                    0 <= s < i && (#[trigger] its[s]).0 == dim_posting(pre, d)[a].record_id;
                assert(its[s].0 != its[i].0);
            }
        }
    } else {
        assert(dim_posting(post, d) == dim_posting(pre, d));
    }
}

} // verus!
