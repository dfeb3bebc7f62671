use vstd::prelude::*;
use bitpacking::BitPacker;
use crate::types::PointOffsetType;
use crate::weight::Weight;
use crate::posting_list_common::{PostingElement, PostingElementEx, PostingListIter, spec_extend,
    ids_distinct, ids_ascending, first_at_or_after, first_after};

verus! {

/// Number of entries in one compressed block: the bit packer's block length
/// (four lanes of thirty-two integers).
pub const BLOCK_LEN: usize = 128;

/// What `BitPacker4x::decompress_strictly_sorted` yields for a packed block:
/// a function of the seed, the packed bytes and the width alone.
pub uninterp spec fn decode_block(initial: Option<u32>, data: Seq<u8>, bits: u8) -> Seq<u32>;

/// What `BitPacker4x::num_bits_strictly_sorted` yields for a block of ids:
/// the narrowest width that can hold the block's deltas, a function of the
/// seed and the ids alone.
pub uninterp spec fn packed_bits(initial: Option<u32>, ids: Seq<u32>) -> u8;

/// Relies on `bitpacking::BitPacker4x::num_bits_strictly_sorted`: the
/// narrowest width for one block's strict deltas; at most thirty-two bits,
/// since the ids themselves are thirty-two bits wide.
#[verifier::external_body]
fn num_bits_strictly_sorted(initial: Option<u32>, ids: &[u32]) -> (r: u8)
    requires
        ids@.len() == BLOCK_LEN,
    ensures
        r == packed_bits(initial, ids@),
        r <= 32,
{
    bitpacking::BitPacker4x::new().num_bits_strictly_sorted(initial, ids)
}

/// Relies on `bitpacking::BitPacker4x::compress_strictly_sorted` and the
/// crate's round-trip guarantee: a strictly ascending block packed at the
/// width that `num_bits_strictly_sorted` chose occupies sixteen bytes per
/// bit of width and decodes back to the very same ids.
#[verifier::external_body]
fn compress_strictly_sorted(initial: Option<u32>, ids: &[u32], bits: u8, out_len: usize) -> (r:
    Vec<u8>)
    requires
        ids@.len() == BLOCK_LEN,
        forall|i: int, j: int| 0 <= i < j < ids@.len() ==> ids@[i] < ids@[j],
        (initial matches Some(v) ==> v < ids@[0]),
        bits == packed_bits(initial, ids@),
        out_len == 16 * (bits as int),
    ensures
        r@.len() == out_len,
        decode_block(initial, r@, bits) == ids@,
{
    let mut out = vec![0u8; out_len];
    bitpacking::BitPacker4x::new().compress_strictly_sorted(initial, ids, &mut out, bits);
    out
}

/// Relies on `bitpacking::BitPacker4x::decompress_strictly_sorted`: unpacks
/// one block of sixteen bytes per bit of width into its block of ids.
#[verifier::external_body]
fn decompress_strictly_sorted(initial: Option<u32>, data: &[u8], offset: usize, size: usize,
    bits: u8) -> (r: Vec<u32>)
    requires
        offset + size <= data@.len(),
        size == 16 * (bits as int),
        bits <= 32,
    ensures
        r@.len() == BLOCK_LEN,
        r@ == decode_block(initial, data@.subrange(offset as int, offset + size as int), bits),
{
    let mut out = vec![0u32; bitpacking::BitPacker4x::BLOCK_LEN];
    bitpacking::BitPacker4x::new().decompress_strictly_sorted(initial, &data[offset..offset
        + size], &mut out, bits);
    out
}

/// The seed a block's deltas are computed against: the id just before the
/// block's first id, or nothing when the first id is zero.
pub open spec fn prev_id(initial: u32) -> Option<u32> {
    if initial == 0 {
        None
    } else {
        Some((initial - 1) as u32)
    }
}

/// One compressed block: the first id of the block, the byte offset of its
/// packed ids inside the shared buffer, and the block's weights, uncompressed.
pub struct CompressedPostingChunk<W> {
    /// First record id of the chunk, the seed for decompression.
    initial: PointOffsetType,
    /// Byte offset of the chunk's packed ids within the shared buffer.
    offset: u32,
    /// Weights of the chunk's entries, one per entry.
    weights: Vec<W>,
}

/// Byte length of chunk `i`'s packed payload: up to the next chunk's offset,
/// or to the end of the buffer for the last chunk.
spec fn chunk_len_at<W>(chunks: Seq<CompressedPostingChunk<W>>, data_len: int, i: int) -> int {
    if i + 1 < chunks.len() {
        chunks[i + 1].offset - chunks[i].offset
    } else {
        data_len - chunks[i].offset
    }
}

/// The ids chunk `i` decodes to.
spec fn chunk_ids_at<W>(data: Seq<u8>, chunks: Seq<CompressedPostingChunk<W>>, i: int) -> Seq<
    u32> {
    let off = chunks[i].offset as int;
    let size = chunk_len_at(chunks, data.len() as int, i);
    decode_block(prev_id(chunks[i].initial), data.subrange(off, off + size), (size / 16) as u8)
}

/// The ids of the logical block `c` of a list of elements.
spec fn block_ids<W>(elements: Seq<PostingElement<W>>, c: int) -> Seq<u32> {
    Seq::new(BLOCK_LEN as nat, |j: int| elements[c * (BLOCK_LEN as int) + j].record_id)
}

/// Chunk `c` is a faithful encoding of logical block `c` of the elements:
/// its payload lies inside the buffer, sixteen bytes per bit of width, and
/// decodes to exactly the block's ids; its weights are the block's weights.
spec fn chunk_wf_at<W>(data: Seq<u8>, chunks: Seq<CompressedPostingChunk<W>>, elements: Seq<
    PostingElement<W>>, c: int) -> bool {
    let size = chunk_len_at(chunks, data.len() as int, c);
    &&& chunks[c].weights@.len() == BLOCK_LEN
    &&& chunks[c].offset as int <= data.len()
    &&& 0 <= size <= 512
    &&& size % 16 == 0
    &&& chunks[c].initial == elements[c * (BLOCK_LEN as int)].record_id
    &&& (forall|j: int|
        0 <= j < BLOCK_LEN ==> chunks[c].weights@[j] == elements[c * (BLOCK_LEN as int)
            + j].weight)
    &&& chunk_ids_at(data, chunks, c) == block_ids(elements, c)
}

/// The whole representation invariant of a compressed posting list, tying
/// the physical buffers to the logical sequence of elements.
spec fn parts_wf<W>(data: Seq<u8>, chunks: Seq<CompressedPostingChunk<W>>, remainders: Seq<
    PostingElement<W>>, last_id: Option<PointOffsetType>, elements: Seq<PostingElement<W>>,
) -> bool {
    &&& elements.len() == chunks.len() * (BLOCK_LEN as int) + remainders.len()
    &&& elements.len() <= usize::MAX
    &&& remainders.len() < BLOCK_LEN
    &&& ids_ascending(elements)
    &&& (forall|c: int| 0 <= c < chunks.len() ==> #[trigger] chunk_wf_at(data, chunks, elements, c))
    &&& (forall|j: int|
        0 <= j < remainders.len() ==> #[trigger] remainders[j] == elements[chunks.len() * (
        BLOCK_LEN as int) + j])
    &&& last_id == (if elements.len() == 0 {
        None::<PointOffsetType>
    } else {
        Some(elements.last().record_id)
    })
}

/// An immutable compressed posting list: complete blocks of bit-packed
/// delta-encoded ids with per-block weight arrays, then a short uncompressed
/// tail, in strictly ascending record-id order throughout.
pub struct CompressedPostingList<W> {
    /// Compressed ids data. Chunks refer to subslices of this data.
    id_data: Vec<u8>,
    /// Fixed-size chunks.
    chunks: Vec<CompressedPostingChunk<W>>,
    /// Remainder elements that do not fit into chunks.
    remainders: Vec<PostingElement<W>>,
    /// Id of the last element in the list, kept to avoid unpacking the last
    /// chunk when seeking past the end.
    last_id: Option<PointOffsetType>,
    /// The logical contents, the reference every buffer is held against.
    elements: Ghost<Seq<PostingElement<W>>>,
}

/// A non-owning view of a compressed posting list.
#[derive(Clone, Copy)]
pub struct CompressedPostingListView<'a, W> {
    id_data: &'a [u8],
    chunks: &'a [CompressedPostingChunk<W>],
    remainders: &'a [PostingElement<W>],
    last_id: Option<PointOffsetType>,
    elements: Ghost<Seq<PostingElement<W>>>,
}

impl<W> View for CompressedPostingList<W> {
    type V = Seq<PostingElement<W>>;

    closed spec fn view(&self) -> Seq<PostingElement<W>> {
        self.elements@
    }
}

impl<'a, W> View for CompressedPostingListView<'a, W> {
    type V = Seq<PostingElement<W>>;

    closed spec fn view(&self) -> Seq<PostingElement<W>> {
        self.elements@
    }
}

impl<W: Weight> CompressedPostingList<W> {
    /// The representation invariant; every list the builder emits has it.
    pub closed spec fn wf(&self) -> bool {
        parts_wf(self.id_data@, self.chunks@, self.remainders@, self.last_id, self.elements@)
    }

    /// Number of complete chunks.
    pub closed spec fn spec_chunks_len(&self) -> int {
        self.chunks@.len() as int
    }

    /// Number of tail entries outside the chunks.
    pub closed spec fn spec_remainders_len(&self) -> int {
        self.remainders@.len() as int
    }

    /// A borrowed view of this list.
    pub fn as_view(&self) -> (r: CompressedPostingListView<'_, W>)
        ensures
            r@ == self@,
            self.wf() ==> r.wf(),
            r.spec_chunks_len() == self.spec_chunks_len(),
            r.spec_remainders_len() == self.spec_remainders_len(),
    {
        CompressedPostingListView {
            id_data: self.id_data.as_slice(),
            chunks: self.chunks.as_slice(),
            remainders: self.remainders.as_slice(),
            last_id: self.last_id,
            elements: Ghost(self.elements@),
        }
    }
}

impl<'a, W: Weight> CompressedPostingListView<'a, W> {
    /// The representation invariant, seen through the borrow.
    pub closed spec fn wf(&self) -> bool {
        parts_wf(self.id_data@, self.chunks@, self.remainders@, self.last_id, self.elements@)
    }

    /// The borrowed buffers: packed ids, chunks, remainders.
    pub(crate) fn parts(&self) -> (&'a [u8], &'a [CompressedPostingChunk<W>], &'a [
        PostingElement<W>]) {
        (self.id_data, self.chunks, self.remainders)
    }

    /// The highest record id in the list, if the list is not empty.
    pub fn last_id(&self) -> (r: Option<PointOffsetType>)
        requires
            self.wf(),
        ensures
            r == (if self@.len() == 0 {
                None::<PointOffsetType>
            } else {
                Some(self@.last().record_id)
            }),
    {
        self.last_id
    }

    /// Number of entries in the list: complete blocks plus the tail.
    pub fn len(&self) -> (r: usize)
        requires
            self.wf(),
        ensures
            r == self@.len(),
            r == self.spec_chunks_len() * (BLOCK_LEN as int) + self.spec_remainders_len(),
    {
        self.chunks.len() * BLOCK_LEN + self.remainders.len()
    }

    /// Whether the list has no entries.
    pub fn is_empty(&self) -> (r: bool)
        requires
            self.wf(),
        ensures
            r == (self@.len() == 0),
    {
        self.chunks.is_empty() && self.remainders.is_empty()
    }

    /// An owned copy of the viewed list: same buffers, same contents.
    pub fn to_owned(&self) -> (r: CompressedPostingList<W>)
        requires
            self.wf(),
        ensures
            r.wf(),
            r@ == self@,
    {
        let id_data = vstd::slice::slice_to_vec(self.id_data);
        let mut chunks: Vec<CompressedPostingChunk<W>> = Vec::new();
        let mut i: usize = 0;
        while i < self.chunks.len()
            invariant
                self.wf(),
                i <= self.chunks@.len(),
                chunks@.len() == i,
                forall|t: int|
                    0 <= t < i ==> (#[trigger] chunks@[t].initial == self.chunks@[t].initial
                        && chunks@[t].offset == self.chunks@[t].offset && chunks@[t].weights@
                        == self.chunks@[t].weights@),
            decreases self.chunks@.len() - i,
        {
            let c = vstd::slice::slice_index_get(self.chunks, i);
            let mut weights: Vec<W> = Vec::new();
            let mut j: usize = 0;
            while j < c.weights.len()
                invariant
                    j <= c.weights@.len(),
                    weights@ == c.weights@.take(j as int),
                decreases c.weights@.len() - j,
            {
                weights.push(c.weights[j]);
                proof {
                    assert(weights@ =~= c.weights@.take(j as int + 1));
                }
                j += 1;
            }
            proof {
                assert(weights@ =~= c.weights@);
            }
            chunks.push(CompressedPostingChunk { initial: c.initial, offset: c.offset, weights });
            i += 1;
        }
        let mut remainders: Vec<PostingElement<W>> = Vec::new();
        let mut i: usize = 0;
        while i < self.remainders.len()
            invariant
                i <= self.remainders@.len(),
                remainders@ == self.remainders@.take(i as int),
            decreases self.remainders@.len() - i,
        {
            remainders.push(*vstd::slice::slice_index_get(self.remainders, i));
            proof {
                assert(remainders@ =~= self.remainders@.take(i as int + 1));
            }
            i += 1;
        }
        proof {
            assert(remainders@ =~= self.remainders@);
        }
        let r = CompressedPostingList {
            id_data,
            chunks,
            remainders,
            last_id: self.last_id,
            elements: Ghost(self.elements@),
        };
        proof {
            let es = self.elements@;
            assert forall|c: int| 0 <= c < r.chunks@.len() implies #[trigger] chunk_wf_at(
                r.id_data@, r.chunks@, es, c) by {
                assert(chunk_wf_at(self.id_data@, self.chunks@, es, c));
                assert(r.chunks@[c].initial == self.chunks@[c].initial);
                assert(r.chunks@[c].offset == self.chunks@[c].offset);
                assert(r.chunks@[c].weights@ == self.chunks@[c].weights@);
                if c + 1 < r.chunks@.len() {
                    assert(r.chunks@[c + 1].initial == self.chunks@[c + 1].initial);
                    assert(r.chunks@[c + 1].offset == self.chunks@[c + 1].offset);
                }
                assert(r.id_data@ == self.id_data@);
                assert(chunk_len_at(r.chunks@, r.id_data@.len() as int, c) == chunk_len_at(
                    self.chunks@, self.id_data@.len() as int, c));
                assert(chunk_ids_at(r.id_data@, r.chunks@, c) == chunk_ids_at(self.id_data@,
                    self.chunks@, c));
            }
        }
        r
    }

    /// How much memory the viewed list's parts occupy.
    pub fn store_size(&self) -> (r: CompressedPostingListStoreSize)
        ensures
            r.id_data_bytes == self.spec_id_data_len(),
            r.chunks_count == self.spec_chunks_len(),
            r.remainders_count == self.spec_remainders_len(),
            r.sizeof_chunk as nat == vstd::layout::size_of::<CompressedPostingChunk<W>>(),
            r.sizeof_remainder as nat == vstd::layout::size_of::<PostingElement<W>>(),
    {
        CompressedPostingListStoreSize {
            id_data_bytes: self.id_data.len(),
            chunks_count: self.chunks.len(),
            remainders_count: self.remainders.len(),
            sizeof_chunk: core::mem::size_of::<CompressedPostingChunk<W>>(),
            sizeof_remainder: core::mem::size_of::<PostingElement<W>>(),
        }
    }

    /// Number of bytes of packed ids.
    pub closed spec fn spec_id_data_len(&self) -> int {
        self.id_data@.len() as int
    }

    /// Number of complete chunks.
    pub closed spec fn spec_chunks_len(&self) -> int {
        self.chunks@.len() as int
    }

    /// Number of tail entries outside the chunks.
    pub closed spec fn spec_remainders_len(&self) -> int {
        self.remainders@.len() as int
    }
}

/// How much memory a compressed posting list occupies, by part.
pub struct CompressedPostingListStoreSize {
    /// Bytes of packed ids.
    pub id_data_bytes: usize,
    /// Number of complete chunks.
    pub chunks_count: usize,
    /// Number of tail entries outside the chunks.
    pub remainders_count: usize,
    /// Bytes one chunk descriptor occupies.
    pub sizeof_chunk: usize,
    /// Bytes one tail entry occupies.
    pub sizeof_remainder: usize,
}

impl CompressedPostingListStoreSize {
    /// Total bytes: the packed ids, the chunk descriptors and the tail.
    pub fn total(&self) -> (r: usize)
        requires
            self.id_data_bytes + self.chunks_count * self.sizeof_chunk + self.remainders_count
                * self.sizeof_remainder <= usize::MAX,
        ensures
            r == self.id_data_bytes + self.chunks_count * self.sizeof_chunk
                + self.remainders_count * self.sizeof_remainder,
    {
        self.id_data_bytes + self.chunks_count * self.sizeof_chunk + self.remainders_count
            * self.sizeof_remainder
    }

    /// Bytes the chunk descriptors occupy.
    pub fn chunks_bytes(&self) -> (r: usize)
        requires
            self.chunks_count * self.sizeof_chunk <= usize::MAX,
        ensures
            r == self.chunks_count * self.sizeof_chunk,
    {
        self.chunks_count * self.sizeof_chunk
    }
}

/// A well-formed chunk's payload lies inside the buffer: at most 512 bytes,
/// a multiple of sixteen, ending at or before the buffer's end.
proof fn lemma_chunk_bounds<W>(data: Seq<u8>, chunks: Seq<CompressedPostingChunk<W>>, es: Seq<
    PostingElement<W>>, c: int)
    requires
        forall|t: int| 0 <= t < chunks.len() ==> #[trigger] chunk_wf_at(data, chunks, es, t),
        0 <= c < chunks.len(),
    ensures
        chunks[c].offset as int + chunk_len_at(chunks, data.len() as int, c) <= data.len(),
        0 <= chunk_len_at(chunks, data.len() as int, c) <= 512,
        chunk_len_at(chunks, data.len() as int, c) % 16 == 0,
{
    assert(chunk_wf_at(data, chunks, es, c));
    if c + 1 < chunks.len() {
        assert(chunk_wf_at(data, chunks, es, c + 1));
    }
}

/// In a well-formed list, the entry at a position inside the chunked region
/// is spelled out by its chunk: the decoded id and the stored weight.
proof fn lemma_element_at<W>(data: Seq<u8>, chunks: Seq<CompressedPostingChunk<W>>, es: Seq<
    PostingElement<W>>, pos: int)
    requires
        forall|t: int| 0 <= t < chunks.len() ==> #[trigger] chunk_wf_at(data, chunks, es, t),
        chunks.len() * (BLOCK_LEN as int) <= es.len(),
        0 <= pos < chunks.len() * (BLOCK_LEN as int),
    ensures
        0 <= pos / (BLOCK_LEN as int) < chunks.len(),
        0 <= pos % (BLOCK_LEN as int) < BLOCK_LEN,
        pos == pos / (BLOCK_LEN as int) * (BLOCK_LEN as int) + pos % (BLOCK_LEN as int),
        es[pos].record_id == chunk_ids_at(data, chunks, pos / (BLOCK_LEN as int))[pos % (
        BLOCK_LEN as int)],
        es[pos].weight == chunks[pos / (BLOCK_LEN as int)].weights@[pos % (BLOCK_LEN as int)],
{
    let b = BLOCK_LEN as int;
    let q = pos / b;
    let r = pos % b;
    vstd::arithmetic::div_mod::lemma_fundamental_div_mod(pos, b);
    assert(pos == b * q + r);
    assert(0 <= r < b) by {
        vstd::arithmetic::div_mod::lemma_mod_bound(pos, b);
    }
    assert(q < chunks.len()) by {
        if q >= chunks.len() {
            vstd::arithmetic::mul::lemma_mul_inequality(chunks.len() as int, q, b);
        }
    }
    assert(chunk_wf_at(data, chunks, es, q));
    assert(chunk_ids_at(data, chunks, q) == block_ids(es, q));
    assert(block_ids(es, q)[r] == es[q * b + r].record_id);
}

/// A position below `l` blocks lies in the chunked region, and conversely.
proof fn lemma_div_block(pos: int, l: int)
    requires
        pos >= 0,
        l >= 0,
    ensures
        (pos / (BLOCK_LEN as int) < l) == (pos < l * (BLOCK_LEN as int)),
{
    let b = BLOCK_LEN as int;
    let q = pos / b;
    vstd::arithmetic::div_mod::lemma_fundamental_div_mod(pos, b);
    vstd::arithmetic::div_mod::lemma_mod_bound(pos, b);
    if q < l {
        vstd::arithmetic::mul::lemma_mul_inequality(q + 1, l, b);
        assert((q + 1) * b == q * b + b);
    } else {
        vstd::arithmetic::mul::lemma_mul_inequality(l, q, b);
    }
}

/// A position between `c` blocks and `c + 1` blocks belongs to block `c`.
proof fn lemma_block_of(pos: int, c: int)
    requires
        0 <= c,
        c * (BLOCK_LEN as int) <= pos < (c + 1) * (BLOCK_LEN as int),
    ensures
        pos / (BLOCK_LEN as int) == c,
        pos % (BLOCK_LEN as int) == pos - c * (BLOCK_LEN as int),
{
    let b = BLOCK_LEN as int;
    assert((c + 1) * b == c * b + b);
    vstd::arithmetic::div_mod::lemma_fundamental_div_mod_converse(pos, b, c, pos - c * b);
}

/// Skipping entries whose ids do not exceed the pivot does not move the
/// first position beyond the pivot.
proof fn lemma_first_after_skip<W>(s: Seq<PostingElement<W>>, from: int, to: int, id: u32)
    requires
        0 <= from <= to <= s.len(),
        forall|t: int| from <= t < to ==> #[trigger] s[t].record_id <= id,
    ensures
        first_after(s, from, id) == first_after(s, to, id),
    decreases to - from,
{
    if from < to {
        lemma_first_after_skip(s, from + 1, to, id);
    }
}

/// Accumulates posting entries and emits a compressed posting list.
pub struct CompressedPostingBuilder<W> {
    elements: Vec<PostingElement<W>>,
}

impl<W> View for CompressedPostingBuilder<W> {
    type V = Seq<PostingElement<W>>;

    closed spec fn view(&self) -> Seq<PostingElement<W>> {
        self.elements@
    }
}

/// Sorts posting entries by record id. The ids must be distinct, so the
/// result is strictly ascending.
fn sorted_by_id<W: Weight>(v: &Vec<PostingElement<W>>) -> (out: Vec<PostingElement<W>>)
    requires
        ids_distinct(v@),
    ensures
        out@.len() == v@.len(),
        out@.to_multiset() == v@.to_multiset(),
        ids_ascending(out@),
{
    broadcast use vstd::seq_lib::group_to_multiset_ensures;

    let mut out: Vec<PostingElement<W>> = Vec::new();
    let mut i: usize = 0;
    while i < v.len()
        invariant
            i <= v@.len(),
            out@.len() == i,
            ids_distinct(v@),
            ids_ascending(out@),
            out@.to_multiset() == v@.take(i as int).to_multiset(),
        decreases v@.len() - i,
    {
        let e = v[i];
        let ghost pre = out@;
        proof {
            // every entry already placed comes from the strict prefix, so its
            // id differs from the id of the entry being placed
            assert forall|t: int| 0 <= t < pre.len() implies #[trigger] pre[t].record_id
                != e.record_id by {
                assert(pre.contains(pre[t]));
                vstd::seq_lib::to_multiset_contains(pre, pre[t]);
                vstd::seq_lib::to_multiset_contains(v@.take(i as int), pre[t]);
                assert(v@.take(i as int).contains(pre[t]));
                let s = choose|s: int| 0 <= s < i && v@.take(i as int)[s] == pre[t];
                assert(v@[s] == pre[t]);
            }
        }
        let mut j: usize = 0;
        while j < out.len() && out[j].record_id < e.record_id
            invariant
                j <= out@.len(),
                out@ == pre,
                forall|t: int| 0 <= t < j ==> #[trigger] pre[t].record_id < e.record_id,
            decreases out@.len() - j,
        {
            j += 1;
        }
        proof {
            if j < pre.len() {
                assert(pre[j as int].record_id > e.record_id);
            }
        }
        out.insert(j, e);
        proof {
            assert forall|a: int, b: int| 0 <= a < b < out@.len() implies #[trigger] out@[a].record_id
                < #[trigger] out@[b].record_id by {
                if b < j {
                    assert(out@[a] == pre[a] && out@[b] == pre[b]);
                } else if b == j {
                    assert(out@[b] == e && out@[a] == pre[a]);
                } else {
                    assert(out@[b] == pre[b - 1]);
                    if a < j {
                        assert(out@[a] == pre[a]);
                        assert(pre[a].record_id < pre[b - 1].record_id || a == b - 1);
                    } else if a == j {
                        assert(out@[a] == e);
                        assert(pre[j as int].record_id <= pre[b - 1].record_id);
                    } else {
                        assert(out@[a] == pre[a - 1]);
                    }
                }
            }
            vstd::seq_lib::to_multiset_insert(pre, j as int, e);
            vstd::seq_lib::to_multiset_build(v@.take(i as int), v@[i as int]);
            assert(v@.take(i as int + 1) =~= v@.take(i as int).push(v@[i as int]));
        }
        i += 1;
    }
    proof {
        assert(v@.take(v@.len() as int) =~= v@);
        assert(out@.to_multiset().len() == out@.len());
        assert(v@.to_multiset().len() == v@.len());
    }
    out
}

impl<W: Weight> CompressedPostingBuilder<W> {
    /// A builder with no entries.
    pub fn new() -> (r: Self)
        ensures
            r@ == Seq::<PostingElement<W>>::empty(),
    {
        let r = CompressedPostingBuilder { elements: Vec::new() };
        proof {
            assert(r.elements@ =~= Seq::<PostingElement<W>>::empty());
        }
        r
    }

    /// Adds a new record to the posting list.
    pub fn add(&mut self, record_id: PointOffsetType, weight: W)
        ensures
            final(self)@ == old(self)@.push((PostingElement { record_id, weight })),
    {
        self.elements.push(PostingElement { record_id, weight });
    }

    /// Emits the compressed list: the entries sorted by record id, packed
    /// into complete blocks of `BLOCK_LEN` ids with their weights aside, and
    /// an uncompressed tail of whatever does not fill a block.
    ///
    /// The record ids must be distinct; an entry count is limited so that
    /// every block's byte offset fits the stored thirty-two bits.
    pub fn build(self) -> (r: CompressedPostingList<W>)
        requires
            ids_distinct(self@),
            self@.len() <= 0x3FFF_FFFF,
        ensures
            r.wf(),
            r@.len() == self@.len(),
            r@.to_multiset() == self@.to_multiset(),
            ids_ascending(r@),
            r.spec_chunks_len() == r@.len() as int / (BLOCK_LEN as int),
            r.spec_remainders_len() == r@.len() as int % (BLOCK_LEN as int),
    {
        let elements = sorted_by_id(&self.elements);
        let n = elements.len();
        let ghost es = elements@;
        let mut chunks: Vec<CompressedPostingChunk<W>> = Vec::new();
        let mut id_data: Vec<u8> = Vec::new();
        let mut i: usize = 0;
        while i + BLOCK_LEN <= n
            invariant
                n == es.len(),
                n <= 0x3FFF_FFFF,
                elements@ == es,
                ids_ascending(es),
                i == chunks@.len() * (BLOCK_LEN as int),
                i <= n,
                id_data@.len() <= 4 * i,
                forall|c: int|
                    0 <= c < chunks@.len() ==> #[trigger] chunk_wf_at(id_data@, chunks@, es, c),
            decreases n - i,
        {
            let mut ids: Vec<u32> = Vec::new();
            let mut ws: Vec<W> = Vec::new();
            let mut j: usize = 0;
            while j < BLOCK_LEN
                invariant
                    j <= BLOCK_LEN,
                    i + BLOCK_LEN <= n,
                    n == elements@.len(),
                    ids@.len() == j,
                    ws@.len() == j,
                    forall|t: int| 0 <= t < j ==> #[trigger] ids@[t] == elements@[i + t].record_id,
                    forall|t: int| 0 <= t < j ==> #[trigger] ws@[t] == elements@[i + t].weight,
                decreases BLOCK_LEN - j,
            {
                ids.push(elements[i + j].record_id);
                ws.push(elements[i + j].weight);
                j += 1;
            }
            let initial = ids[0];
            let prev = if initial == 0 {
                None
            } else {
                Some(initial - 1)
            };
            proof {
                assert(prev == prev_id(initial));
                assert forall|a: int, b: int| 0 <= a < b < ids@.len() implies ids@[a] < ids@[b] by {
                    assert(es[i + a].record_id < es[i + b].record_id);
                }
            }
            let bits = num_bits_strictly_sorted(prev, ids.as_slice());
            let size: usize = 16 * (bits as usize);
            let packed = compress_strictly_sorted(prev, ids.as_slice(), bits, size);
            let offset_u32: u32 = id_data.len() as u32;
            let ghost old_data = id_data@;
            let ghost old_chunks = chunks@;
            chunks.push(CompressedPostingChunk { initial, offset: offset_u32, weights: ws });
            let mut packed_v = packed;
            let ghost pk = packed_v@;
            id_data.append(&mut packed_v);
            proof {
                let new_chunks = chunks@;
                let new_data = id_data@;
                let dl = new_data.len() as int;
                let c_new = old_chunks.len() as int;
                assert forall|c: int| 0 <= c < new_chunks.len() implies #[trigger] chunk_wf_at(
                    new_data, new_chunks, es, c) by {
                    if c < c_new {
                        assert(chunk_wf_at(old_data, old_chunks, es, c));
                        let old_size = chunk_len_at(old_chunks, old_data.len() as int, c);
                        let off = old_chunks[c].offset as int;
                        assert(new_chunks[c] == old_chunks[c]);
                        if c + 1 < old_chunks.len() {
                            assert(chunk_wf_at(old_data, old_chunks, es, c + 1));
                            assert(new_chunks[c + 1] == old_chunks[c + 1]);
                            assert(off + old_size == old_chunks[c + 1].offset as int);
                            assert(off + old_size <= old_data.len());
                            assert(chunk_len_at(new_chunks, dl, c) == old_size);
                        } else {
                            // previously the last chunk: its end was the old
                            // buffer end, which is the new chunk's offset
                            assert(off + old_size == old_data.len());
                            assert(old_data.len() <= 0xFFFF_FFFF);
                            assert(new_chunks[c + 1].offset as int == old_data.len());
                            assert(chunk_len_at(new_chunks, dl, c) == old_size);
                        }
                        assert(new_data.subrange(off, off + old_size) =~= old_data.subrange(off,
                            off + old_size));
                        assert(chunk_ids_at(new_data, new_chunks, c) == chunk_ids_at(old_data,
                            old_chunks, c));
                    } else {
                        // the freshly pushed chunk
                        assert(c == c_new);
                        let size_c = chunk_len_at(new_chunks, dl, c);
                        assert(new_chunks[c].offset == old_data.len());
                        assert(size_c == pk.len());
                        assert(size_c == 16 * (bits as int));
                        assert((size_c / 16) as u8 == bits);
                        assert(new_data.subrange(old_data.len() as int, old_data.len()
                            + size_c) =~= pk);
                        assert(chunk_ids_at(new_data, new_chunks, c) == decode_block(prev, pk,
                            bits));
                        assert(chunk_ids_at(new_data, new_chunks, c) =~= block_ids(es, c));
                        assert(new_chunks[c].initial == es[c * (BLOCK_LEN as int)].record_id);
                    }
                }
            }
            i += BLOCK_LEN;
        }
        let ghost chunks_done = chunks@;
        let mut remainders: Vec<PostingElement<W>> = Vec::new();
        let mut t: usize = i;
        while t < n
            invariant
                i <= t <= n,
                n == elements@.len(),
                remainders@.len() == t - i,
                forall|u: int| 0 <= u < t - i ==> #[trigger] remainders@[u] == elements@[i + u],
            decreases n - t,
        {
            remainders.push(elements[t]);
            t += 1;
        }
        let last_id = if n == 0 {
            None
        } else {
            Some(elements[n - 1].record_id)
        };
        let r = CompressedPostingList {
            id_data,
            chunks,
            remainders,
            last_id,
            elements: Ghost(es),
        };
        proof {
            assert(r.wf());
            vstd::arithmetic::div_mod::lemma_fundamental_div_mod_converse(n as int,
                BLOCK_LEN as int, r.chunks@.len() as int, r.remainders@.len() as int);
        }
        r
    }
}

impl<W: Weight> CompressedPostingList<W> {
    /// The list holding the given records, which must have distinct ids.
    pub fn from(records: Vec<(PointOffsetType, W)>) -> (r: CompressedPostingList<W>)
        requires
            forall|i: int, j: int|
                0 <= i < j < records@.len() ==> #[trigger] records@[i].0 != #[trigger] records@[
                j].0,
            records@.len() <= 0x3FFF_FFFF,
        ensures
            r.wf(),
            r@.len() == records@.len(),
            r@.to_multiset() == records@.map_values(|p: (PointOffsetType, W)| PostingElement {
                record_id: p.0, weight: p.1 }).to_multiset(),
            ids_ascending(r@),
            r.spec_chunks_len() == r@.len() as int / (BLOCK_LEN as int),
            r.spec_remainders_len() == r@.len() as int % (BLOCK_LEN as int),
    {
        let mut builder = CompressedPostingBuilder::new();
        let mut i: usize = 0;
        while i < records.len()
            invariant
                i <= records@.len(),
                builder@ == records@.take(i as int).map_values(|p: (PointOffsetType, W)|
                    PostingElement { record_id: p.0, weight: p.1 }),
            decreases records@.len() - i,
        {
            let (id, weight) = records[i];
            builder.add(id, weight);
            proof {
                assert(builder@ =~= records@.take(i as int + 1).map_values(|p: (PointOffsetType,
                    W)| PostingElement { record_id: p.0, weight: p.1 }));
            }
            i += 1;
        }
        proof {
            assert(records@.take(records@.len() as int) =~= records@);
        }
        builder.build()
    }

    /// A cursor over this list, positioned at the start; the entries it
    /// walks come in strictly ascending record-id order.
    pub fn iter(&self) -> (r: CompressedPostingListIterator<'_, W>)
        requires
            self.wf(),
        ensures
            r.iter_wf(),
            r.all_elements() == self@,
            r.position() == 0,
            ids_ascending(r.all_elements()),
    {
        self.as_view().iter()
    }
}

impl<'a, W: Weight> CompressedPostingListView<'a, W> {
    /// Byte length of one chunk's packed payload: up to the next chunk's
    /// offset, or to the end of the shared buffer for the last chunk.
    fn get_chunk_size(&self, chunk_index: usize) -> (r: usize)
        requires
            self.wf(),
            chunk_index < self.spec_chunks_len(),
        ensures
            r == chunk_len_at(self.chunks@, self.id_data@.len() as int, chunk_index as int),
    {
        proof {
            lemma_chunk_bounds(self.id_data@, self.chunks@, self.elements@, chunk_index as int);
            if chunk_index + 1 < self.chunks@.len() {
                lemma_chunk_bounds(self.id_data@, self.chunks@, self.elements@, chunk_index
                    + 1);
            }
        }
        if chunk_index + 1 < self.chunks.len() {
            (vstd::slice::slice_index_get(self.chunks, chunk_index + 1).offset
                - vstd::slice::slice_index_get(self.chunks, chunk_index).offset) as usize
        } else {
            self.id_data.len() - vstd::slice::slice_index_get(self.chunks,
                chunk_index).offset as usize
        }
    }

    /// Unpacks one chunk into its block of ids.
    fn decompress_chunk(&self, chunk_index: usize) -> (r: Vec<u32>)
        requires
            self.wf(),
            chunk_index < self.spec_chunks_len(),
        ensures
            r@ == chunk_ids_at(self.id_data@, self.chunks@, chunk_index as int),
            r@.len() == BLOCK_LEN,
    {
        proof {
            lemma_chunk_bounds(self.id_data@, self.chunks@, self.elements@, chunk_index as int);
        }
        let chunk = vstd::slice::slice_index_get(self.chunks, chunk_index);
        let chunk_size = self.get_chunk_size(chunk_index);
        let chunk_bits = chunk_size * 8 / BLOCK_LEN;
        proof {
            let s = chunk_size as int;
            assert(chunk_bits == s / 16) by {
                vstd::arithmetic::div_mod::lemma_div_denominator(s * 8, 8, 16);
                vstd::arithmetic::div_mod::lemma_div_multiples_vanish(s, 8);
                assert(s * 8 == 8 * s);
            }
            assert(s / 16 <= 32 && (s / 16) * 16 == s) by {
                vstd::arithmetic::div_mod::lemma_fundamental_div_mod(s, 16);
            }
        }
        let prev = if chunk.initial == 0 {
            None
        } else {
            Some(chunk.initial - 1)
        };
        let r = decompress_strictly_sorted(prev, self.id_data, chunk.offset as usize, chunk_size,
            chunk_bits as u8);
        proof {
            assert(self.chunks@[chunk_index as int] == *chunk);
        }
        r
    }

    /// A cursor over this view, positioned at the start; the entries it
    /// walks come in strictly ascending record-id order.
    pub fn iter(&self) -> (r: CompressedPostingListIterator<'a, W>)
        requires
            self.wf(),
        ensures
            r.iter_wf(),
            r.all_elements() == self@,
            r.position() == 0,
            ids_ascending(r.all_elements()),
    {
        CompressedPostingListIterator::new(self)
    }
}

/// A cursor over a compressed posting list: a current logical position, and
/// a buffer holding the unpacked block around it.
pub struct CompressedPostingListIterator<'a, W> {
    list: CompressedPostingListView<'a, W>,
    /// Whether `decompressed_chunk` holds the unpacked block of the current
    /// position.
    unpacked: bool,
    decompressed_chunk: Vec<u32>,
    pos: usize,
}

impl<'a, W: Weight> CompressedPostingListIterator<'a, W> {
    /// A cursor at the start of the given view.
    fn new(list: &CompressedPostingListView<'a, W>) -> (r: Self)
        requires
            list.wf(),
        ensures
            r.iter_wf(),
            r.all_elements() == list@,
            r.position() == 0,
            ids_ascending(r.all_elements()),
    {
        Self { list: *list, unpacked: false, decompressed_chunk: vec![0u32; BLOCK_LEN], pos: 0 }
    }

    /// The entry at the current position, stripped of the hint, and one step
    /// forward; or nothing at the end of the list.
    pub fn next(&mut self) -> (r: Option<PostingElement<W>>)
        requires
            old(self).iter_wf(),
        ensures
            final(self).iter_wf(),
            final(self).all_elements() == old(self).all_elements(),
            old(self).position() < old(self).all_elements().len() ==> final(self).position()
                == old(self).position() + 1 && r == Some(old(self).all_elements()[old(
                self).position()]),
            old(self).position() >= old(self).all_elements().len() ==> final(self).position()
                == old(self).position() && r == None::<PostingElement<W>>,
    {
        let ghost es = self.list.elements@;
        let result = match self.peek_impl() {
            Some(e) => e,
            None => {
                return None;
            },
        };
        let ghost c = self.pos as int / (BLOCK_LEN as int);
        if self.pos / BLOCK_LEN < self.list.chunks.len() {
            proof {
                lemma_element_at(self.list.id_data@, self.list.chunks@, es, self.pos as int);
            }
            self.pos = self.pos + 1;
            if self.pos % BLOCK_LEN == 0 {
                self.unpacked = false;
            } else {
                proof {
                    let b = BLOCK_LEN as int;
                    let p = self.pos as int;
                    vstd::arithmetic::div_mod::lemma_fundamental_div_mod(p - 1, b);
                    vstd::arithmetic::div_mod::lemma_mod_bound(p - 1, b);
                    if (p - 1) % b == b - 1 {
                        vstd::arithmetic::div_mod::lemma_mod_multiples_basic(c + 1, b);
                        assert((c + 1) * b == c * b + b);
                        assert(p == (c + 1) * b);
                    }
                    vstd::arithmetic::div_mod::lemma_fundamental_div_mod_converse(p, b, c, (p
                        - 1) % b + 1);
                }
            }
        } else {
            self.pos = self.pos + 1;
            proof {
                lemma_div_block(self.pos - 1, self.list.chunks@.len() as int);
                lemma_div_block(self.pos as int, self.list.chunks@.len() as int);
            }
        }
        Some(PostingElement { record_id: result.record_id, weight: result.weight })
    }

    /// The entry at the current position, and, inside the chunked region,
    /// the certainty that the current block is unpacked afterwards.
    fn peek_impl(&mut self) -> (r: Option<PostingElementEx<W>>)
        requires
            old(self).iter_wf(),
        ensures
            final(self).iter_wf(),
            final(self).list == old(self).list,
            final(self).pos == old(self).pos,
            (old(self).pos as int / (BLOCK_LEN as int) < old(self).list.chunks@.len())
                ==> final(self).unpacked,
            !(old(self).pos as int / (BLOCK_LEN as int) < old(self).list.chunks@.len())
                ==> *final(self) == *old(self),
            r == (if (old(self).pos as int) < old(self).list.elements@.len() {
                Some(spec_extend(old(self).list.elements@[old(self).pos as int]))
            } else {
                None::<PostingElementEx<W>>
            }),
    {
        let ghost es = self.list.elements@;
        let pos = self.pos;
        let chunks_len = self.list.chunks.len();
        proof {
            lemma_div_block(pos as int, chunks_len as int);
        }
        if pos / BLOCK_LEN < chunks_len {
            if !self.unpacked {
                let decoded = self.list.decompress_chunk(pos / BLOCK_LEN);
                self.decompressed_chunk = decoded;
                self.unpacked = true;
            }
            proof {
                lemma_element_at(self.list.id_data@, self.list.chunks@, es, pos as int);
                assert(chunk_wf_at(self.list.id_data@, self.list.chunks@, es, pos as int / (
                    BLOCK_LEN as int)));
            }
            let chunk = vstd::slice::slice_index_get(self.list.chunks, pos / BLOCK_LEN);
            let rid = self.decompressed_chunk[pos % BLOCK_LEN];
            let w = chunk.weights[pos % BLOCK_LEN];
            proof {
                assert(self.list.chunks@[pos as int / (BLOCK_LEN as int)] == *chunk);
            }
            Some(PostingElementEx { record_id: rid, weight: w, max_next_weight: W::neg_infinity() })
        } else {
            let rem_base = chunks_len * BLOCK_LEN;
            let rem_len = self.list.remainders.len();
            if pos < rem_base + rem_len {
                let e = *vstd::slice::slice_index_get(self.list.remainders, pos - rem_base);
                Some(PostingElementEx {
                    record_id: e.record_id,
                    weight: e.weight,
                    max_next_weight: W::neg_infinity(),
                })
            } else {
                None
            }
        }
    }


    /// An adapter that walks the list entry by entry from this cursor on.
    pub fn into_std_iter(self) -> (r: CompressedPostingListStdIterator<'a, W>)
        requires
            self.iter_wf(),
        ensures
            r.iter_wf(),
            r.all_elements() == self.all_elements(),
            r.position() == self.position(),
    {
        CompressedPostingListStdIterator(self)
    }
}

impl<'a, W: Weight> PostingListIter<W> for CompressedPostingListIterator<'a, W> {
    closed spec fn iter_wf(&self) -> bool {
        &&& self.list.wf()
        &&& self.pos <= self.list.elements@.len()
        &&& self.decompressed_chunk@.len() == BLOCK_LEN
        &&& ((self.unpacked && self.pos as int / (BLOCK_LEN as int) < self.list.chunks@.len())
            ==> self.decompressed_chunk@ == chunk_ids_at(self.list.id_data@, self.list.chunks@,
            self.pos as int / (BLOCK_LEN as int)))
        &&& (!self.unpacked ==> (self.pos as int % (BLOCK_LEN as int) == 0 || self.pos as int
            >= self.list.chunks@.len() * (BLOCK_LEN as int)))
    }

    closed spec fn all_elements(&self) -> Seq<PostingElement<W>> {
        self.list.elements@
    }

    closed spec fn position(&self) -> int {
        self.pos as int
    }

    open spec fn spec_reliable() -> bool {
        false
    }

    fn peek(&mut self) -> (r: Option<PostingElementEx<W>>) {
        self.peek_impl()
    }

    fn last_id(&self) -> (r: Option<PointOffsetType>) {
        self.list.last_id
    }

    fn skip_to(&mut self, record_id: PointOffsetType) -> (r: Option<PostingElementEx<W>>) {
        let ghost es = self.list.elements@;
        let ghost start = self.pos as int;
        loop
            invariant
                self.iter_wf(),
                self.all_elements() == es,
                es == old(self).all_elements(),
                start == old(self).position(),
                0 <= start <= self.pos as int <= es.len(),
                first_at_or_after(es, start, record_id) == first_at_or_after(es, self.pos as int,
                    record_id),
            decreases es.len() - self.pos,
        {
            let e = match self.peek() {
                Some(e) => e,
                None => {
                    return None;
                },
            };
            if e.record_id == record_id {
                return Some(e);
            }
            if e.record_id > record_id {
                return None;
            }
            let ghost p = self.pos as int;
            self.next();
            proof {
                assert(first_at_or_after(es, p, record_id) == first_at_or_after(es, p + 1,
                    record_id));
            }
        }
    }

    fn skip_to_end(&mut self) {
        proof {
            assert(self.list.elements@.len() == self.list.chunks@.len() * (BLOCK_LEN as int)
                + self.list.remainders@.len());
        }
        self.pos = self.list.chunks.len() * BLOCK_LEN + self.list.remainders.len();
        self.unpacked = false;
        proof {
            lemma_div_block(self.pos as int, self.list.chunks@.len() as int);
        }
    }

    fn len_to_end(&self) -> (r: usize) {
        self.list.len() - self.pos
    }

    fn current_index(&self) -> (r: usize) {
        self.pos
    }

    fn for_each_till_id(&mut self, id: PointOffsetType) -> (out: Vec<PostingElement<W>>) {
        let ghost l = self.list;
        let ghost es = self.list.elements@;
        let ghost start = self.pos as int;
        let mut out: Vec<PostingElement<W>> = Vec::new();
        let chunks_len = self.list.chunks.len();
        let chunks_end = chunks_len * BLOCK_LEN;
        proof {
            assert(es.len() == chunks_len * (BLOCK_LEN as int) + self.list.remainders@.len());
            lemma_div_block(self.pos as int, chunks_len as int);
        }
        // Phase one: drain the block that is already unpacked.
        if self.unpacked && self.pos / BLOCK_LEN < chunks_len {
            let c0 = self.pos / BLOCK_LEN;
            let hi = (c0 + 1) * BLOCK_LEN;
            proof {
                let b = BLOCK_LEN as int;
                vstd::arithmetic::div_mod::lemma_fundamental_div_mod(start, b);
                vstd::arithmetic::div_mod::lemma_mod_bound(start, b);
                vstd::arithmetic::mul::lemma_mul_inequality(c0 as int + 1, chunks_len as int, b);
                assert((c0 as int + 1) * b == c0 as int * b + b);
            }
            let chunk = vstd::slice::slice_index_get(self.list.chunks, c0);
            while self.pos < hi
                invariant
                    self.list == l,
                    self.unpacked,
                    self.list.wf(),
                    es == self.list.elements@,
                    es == old(self).all_elements(),
                    start == old(self).position(),
                    0 <= start <= self.pos as int <= hi as int,
                    hi as int == (c0 as int + 1) * (BLOCK_LEN as int),
                    c0 as int * (BLOCK_LEN as int) <= self.pos as int,
                    (c0 as int) < self.list.chunks@.len(),
                    hi <= chunks_end,
                    chunks_end as int == self.list.chunks@.len() * (BLOCK_LEN as int),
                    chunks_end <= es.len(),
                    self.decompressed_chunk@ == chunk_ids_at(self.list.id_data@,
                        self.list.chunks@, c0 as int),
                    self.decompressed_chunk@.len() == BLOCK_LEN,
                    chunk == &self.list.chunks@[c0 as int],
                    out@ == es.subrange(start, self.pos as int),
                    first_after(es, start, id) == first_after(es, self.pos as int, id),
                decreases hi - self.pos,
            {
                proof {
                    lemma_block_of(self.pos as int, c0 as int);
                    lemma_element_at(self.list.id_data@, self.list.chunks@, es, self.pos as int);
                    assert(chunk_wf_at(self.list.id_data@, self.list.chunks@, es, c0 as int));
                }
                let rid = self.decompressed_chunk[self.pos % BLOCK_LEN];
                if rid > id {
                    proof {
                        assert(first_after(es, self.pos as int, id) == self.pos as int);
                        assert(self.iter_wf());
                    }
                    return out;
                }
                let w = chunk.weights[self.pos % BLOCK_LEN];
                out.push(PostingElement { record_id: rid, weight: w });
                proof {
                    assert(out@ =~= es.subrange(start, self.pos as int + 1));
                    assert(first_after(es, self.pos as int, id) == first_after(es, self.pos
                        as int + 1, id));
                }
                self.pos = self.pos + 1;
            }
            self.unpacked = false;
            proof {
                lemma_block_of(self.pos as int, c0 as int + 1);
            }
        }
        // Phase two: unpack and drain whole blocks.
        proof {
            lemma_div_block(self.pos as int, chunks_len as int);
        }
        while self.pos / BLOCK_LEN < chunks_len
            invariant
                self.list == l,
                !self.unpacked || self.pos as int >= chunks_end as int,
                self.list.wf(),
                es == self.list.elements@,
                es == old(self).all_elements(),
                start == old(self).position(),
                chunks_len == self.list.chunks@.len(),
                chunks_end as int == self.list.chunks@.len() * (BLOCK_LEN as int),
                chunks_end <= es.len(),
                0 <= start <= self.pos as int,
                self.pos as int % (BLOCK_LEN as int) == 0 || self.pos as int >= chunks_end
                    as int,
                self.pos <= es.len(),
                self.decompressed_chunk@.len() == BLOCK_LEN,
                out@ == es.subrange(start, self.pos as int),
                first_after(es, start, id) == first_after(es, self.pos as int, id),
            decreases es.len() - self.pos,
        {
            let c = self.pos / BLOCK_LEN;
            proof {
                lemma_div_block(self.pos as int, chunks_len as int);
                lemma_div_block(self.pos as int, c as int + 1);
                vstd::arithmetic::div_mod::lemma_fundamental_div_mod(self.pos as int,
                    BLOCK_LEN as int);
                vstd::arithmetic::mul::lemma_mul_inequality(c as int + 1, chunks_len as int,
                    BLOCK_LEN as int);
                assert((c as int + 1) * (BLOCK_LEN as int) == c as int * (BLOCK_LEN as int)
                    + (BLOCK_LEN as int));
            }
            let decoded = self.list.decompress_chunk(c);
            let chunk = vstd::slice::slice_index_get(self.list.chunks, c);
            let last = decoded[BLOCK_LEN - 1];
            proof {
                lemma_element_at(self.list.id_data@, self.list.chunks@, es, c as int * (
                    BLOCK_LEN as int) + (BLOCK_LEN as int) - 1);
                lemma_block_of(c as int * (BLOCK_LEN as int) + (BLOCK_LEN as int) - 1, c as int);
            }
            if last <= id {
                // the whole block lies at or under the pivot: emit it without
                // per-entry comparisons
                let mut j: usize = 0;
                let ghost pos0 = self.pos as int;
                while j < BLOCK_LEN
                    invariant
                        self.list == l,
                        self.list.wf(),
                        es == self.list.elements@,
                        0 <= j <= BLOCK_LEN,
                        pos0 == self.pos as int,
                        pos0 == c as int * (BLOCK_LEN as int),
                        (c as int) < self.list.chunks@.len(),
                        chunks_end as int == self.list.chunks@.len() * (BLOCK_LEN as int),
                        chunks_end <= es.len(),
                        0 <= start <= pos0,
                        decoded@ == chunk_ids_at(self.list.id_data@, self.list.chunks@, c as int),
                        decoded@.len() == BLOCK_LEN,
                        chunk == &self.list.chunks@[c as int],
                        es[pos0 + (BLOCK_LEN as int) - 1].record_id <= id,
                        forall|t: int| pos0 <= t < pos0 + j ==> #[trigger] es[t].record_id <= id,
                        out@ == es.subrange(start, pos0 + j as int),
                    decreases BLOCK_LEN - j,
                {
                    proof {
                        lemma_element_at(self.list.id_data@, self.list.chunks@, es, pos0
                            + j as int);
                        lemma_block_of(pos0 + j as int, c as int);
                        assert(chunk_wf_at(self.list.id_data@, self.list.chunks@, es, c as int));
                        assert(ids_ascending(es));
                        if j < BLOCK_LEN - 1 {
                            assert(es[pos0 + j as int].record_id <= es[pos0 + (BLOCK_LEN as int)
                                - 1].record_id);
                        }
                    }
                    let rid = decoded[j];
                    let w = chunk.weights[j];
                    out.push(PostingElement { record_id: rid, weight: w });
                    proof {
                        assert(out@ =~= es.subrange(start, pos0 + j as int + 1));
                    }
                    j += 1;
                }
                proof {
                    lemma_first_after_skip(es, pos0, pos0 + (BLOCK_LEN as int), id);
                }
                self.pos = self.pos + BLOCK_LEN;
                proof {
                    lemma_block_of(self.pos as int, c as int + 1);
                    lemma_div_block(self.pos as int, chunks_len as int);
                }
            } else {
                // the block straddles the pivot: emit entry by entry, and
                // keep the unpacked block for the next call
                self.decompressed_chunk = decoded;
                self.unpacked = true;
                let ghost pos0 = self.pos as int;
                let mut j: usize = 0;
                while j < BLOCK_LEN
                    invariant
                        self.list == l,
                        self.unpacked,
                        self.list.wf(),
                        es == self.list.elements@,
                        es == old(self).all_elements(),
                        start == old(self).position(),
                        0 <= j <= BLOCK_LEN,
                        self.pos as int == pos0 + j,
                        forall|t: int| pos0 <= t < pos0 + j ==> #[trigger] es[t].record_id <= id,
                        pos0 == c as int * (BLOCK_LEN as int),
                        (c as int) < self.list.chunks@.len(),
                        chunks_end as int == self.list.chunks@.len() * (BLOCK_LEN as int),
                        chunks_end <= es.len(),
                        0 <= start <= pos0,
                        es[pos0 + (BLOCK_LEN as int) - 1].record_id > id,
                        self.decompressed_chunk@ == chunk_ids_at(self.list.id_data@,
                            self.list.chunks@, c as int),
                        self.decompressed_chunk@.len() == BLOCK_LEN,
                        chunk == &self.list.chunks@[c as int],
                        out@ == es.subrange(start, self.pos as int),
                        first_after(es, start, id) == first_after(es, self.pos as int, id),
                    decreases BLOCK_LEN - j,
                {
                    proof {
                        lemma_element_at(self.list.id_data@, self.list.chunks@, es, pos0
                            + j as int);
                        lemma_block_of(pos0 + j as int, c as int);
                        assert(chunk_wf_at(self.list.id_data@, self.list.chunks@, es, c as int));
                    }
                    let rid = self.decompressed_chunk[j];
                    if rid > id {
                        proof {
                            assert(first_after(es, self.pos as int, id) == self.pos as int);
                            assert(self.iter_wf());
                        }
                        return out;
                    }
                    let w = chunk.weights[j];
                    out.push(PostingElement { record_id: rid, weight: w });
                    proof {
                        assert(out@ =~= es.subrange(start, self.pos as int + 1));
                        assert(first_after(es, self.pos as int, id) == first_after(es, self.pos
                            as int + 1, id));
                    }
                    self.pos = self.pos + 1;
                    j += 1;
                }
                proof {
                    // the block's last id exceeds the pivot, so the walk
                    // above cannot have reached the block's end
                    assert(es[pos0 + (BLOCK_LEN as int) - 1].record_id <= id);
                    assert(false);
                }
                return out;
            }
        }
        // Phase three: drain the uncompressed tail.
        proof {
            lemma_div_block(self.pos as int, chunks_len as int);
        }
        let total = self.list.chunks.len() * BLOCK_LEN + self.list.remainders.len();
        while self.pos < total
            invariant
                self.list == l,
                self.list.wf(),
                es == self.list.elements@,
                es == old(self).all_elements(),
                start == old(self).position(),
                chunks_end as int == self.list.chunks@.len() * (BLOCK_LEN as int),
                chunks_end as int <= self.pos as int,
                total == es.len(),
                0 <= start <= self.pos as int <= total as int,
                self.decompressed_chunk@.len() == BLOCK_LEN,
                out@ == es.subrange(start, self.pos as int),
                first_after(es, start, id) == first_after(es, self.pos as int, id),
            decreases total - self.pos,
        {
            let e = *vstd::slice::slice_index_get(self.list.remainders, self.pos - chunks_end);
            proof {
                assert(self.list.remainders@[self.pos - chunks_end as int] == es[self.pos
                    as int]);
            }
            if e.record_id > id {
                proof {
                    assert(first_after(es, self.pos as int, id) == self.pos as int);
                    lemma_div_block(self.pos as int, self.list.chunks@.len() as int);
                    assert(self.iter_wf());
                }
                return out;
            }
            out.push(e);
            proof {
                assert(out@ =~= es.subrange(start, self.pos as int + 1));
                assert(first_after(es, self.pos as int, id) == first_after(es, self.pos as int
                    + 1, id));
            }
            self.pos = self.pos + 1;
        }
        proof {
            lemma_div_block(self.pos as int, self.list.chunks@.len() as int);
        }
        out
    }

    fn reliable_max_next_weight() -> (r: bool) {
        false
    }
}

/// A plain forward iterator over the entries of a compressed posting list.
pub struct CompressedPostingListStdIterator<'a, W>(CompressedPostingListIterator<'a, W>);

impl<'a, W: Weight> CompressedPostingListStdIterator<'a, W> {
    /// The cursor's internal consistency.
    pub closed spec fn iter_wf(&self) -> bool {
        self.0.iter_wf()
    }

    /// The whole list being walked.
    pub closed spec fn all_elements(&self) -> Seq<PostingElement<W>> {
        self.0.all_elements()
    }

    /// The current position.
    pub closed spec fn position(&self) -> int {
        self.0.position()
    }

    /// The next entry, if any.
    pub fn next(&mut self) -> (r: Option<PostingElement<W>>)
        requires
            old(self).iter_wf(),
        ensures
            final(self).iter_wf(),
            final(self).all_elements() == old(self).all_elements(),
            old(self).position() < old(self).all_elements().len() ==> final(self).position()
                == old(self).position() + 1 && r == Some(old(self).all_elements()[old(
                self).position()]),
            old(self).position() >= old(self).all_elements().len() ==> final(self).position()
                == old(self).position() && r == None::<PostingElement<W>>,
    {
        self.0.next()
    }
}

} // verus!
