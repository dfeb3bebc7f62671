use vstd::prelude::*;
use crate::types::PointOffsetType;
use crate::weight::Weight;

verus! {

/// One entry of a posting list: a record and its weight in the dimension.
#[derive(Clone, Copy, Debug, PartialEq)]
pub struct PostingElement<W> {
    /// Record ID.
    pub record_id: PointOffsetType,
    /// Weight of the record in the dimension.
    pub weight: W,
}

/// A posting entry extended with the highest weight appearing anywhere after
/// it in its list, or the negative-infinity sentinel where that hint is not
/// maintained.
#[derive(Clone, Copy, Debug, PartialEq)]
pub struct PostingElementEx<W> {
    /// Record ID.
    pub record_id: PointOffsetType,
    /// Weight of the record in the dimension.
    pub weight: W,
    /// Max weight of the elements after this one, where maintained.
    pub max_next_weight: W,
}

/// The extended form of an entry as iterators that do not maintain the
/// `max_next_weight` hint report it.
pub open spec fn spec_extend<W: Weight>(e: PostingElement<W>) -> PostingElementEx<W> {
    (PostingElementEx { record_id: e.record_id, weight: e.weight, max_next_weight: W::spec_neg_infinity() })
}

/// No two entries share a record id.
pub open spec fn ids_distinct<W>(s: Seq<PostingElement<W>>) -> bool {
    forall|i: int, j: int|
        0 <= i < j < s.len() ==> #[trigger] s[i].record_id != #[trigger] s[j].record_id
}

/// Record ids are strictly ascending.
pub open spec fn ids_ascending<W>(s: Seq<PostingElement<W>>) -> bool {
    forall|i: int, j: int|
        0 <= i < j < s.len() ==> #[trigger] s[i].record_id < #[trigger] s[j].record_id
}

/// The first position at or after `from` whose record id is at least `id`,
/// or the length of the sequence if there is none.
pub open spec fn first_at_or_after<W>(s: Seq<PostingElement<W>>, from: int, id: u32) -> int
    decreases s.len() - from,
{
    if from >= s.len() {
        s.len() as int
    } else if s[from].record_id >= id {
        from
    } else {
        first_at_or_after(s, from + 1, id)
    }
}

/// The first position at or after `from` whose record id exceeds `id`,
/// or the length of the sequence if there is none.
pub open spec fn first_after<W>(s: Seq<PostingElement<W>>, from: int, id: u32) -> int
    decreases s.len() - from,
{
    if from >= s.len() {
        s.len() as int
    } else if s[from].record_id > id {
        from
    } else {
        first_after(s, from + 1, id)
    }
}

/// Where the first position at or after `from` with record id at least `id`
/// lies: between `from` and the end, after every skipped entry (all with
/// lower ids), and on an entry with id at least `id` if inside the sequence.
pub proof fn lemma_first_at_or_after<W>(s: Seq<PostingElement<W>>, from: int, id: u32)
    requires
        0 <= from <= s.len(),
    ensures
        from <= first_at_or_after(s, from, id) <= s.len(),
        forall|t: int| from <= t < first_at_or_after(s, from, id) ==> #[trigger] s[t].record_id < id,
        first_at_or_after(s, from, id) < s.len() ==> s[first_at_or_after(s, from, id)].record_id
            >= id,
    decreases s.len() - from,
{
    if from < s.len() && s[from].record_id < id {
        lemma_first_at_or_after(s, from + 1, id);
    }
}

/// The same bounds for the first position whose record id exceeds `id`.
pub proof fn lemma_first_after<W>(s: Seq<PostingElement<W>>, from: int, id: u32)
    requires
        0 <= from <= s.len(),
    ensures
        from <= first_after(s, from, id) <= s.len(),
        forall|t: int| from <= t < first_after(s, from, id) ==> #[trigger] s[t].record_id <= id,
        first_after(s, from, id) < s.len() ==> s[first_after(s, from, id)].record_id > id,
    decreases s.len() - from,
{
    if from < s.len() && s[from].record_id <= id {
        lemma_first_after(s, from + 1, id);
    }
}

/// In a list with ascending ids, seeking a record id from any position at or
/// before it finds it exactly when it is present.
pub proof fn lemma_seek_finds_present<W>(s: Seq<PostingElement<W>>, from: int, id: u32)
    requires
        0 <= from <= s.len(),
        ids_ascending(s),
    ensures
        (exists|t: int| from <= t < s.len() && #[trigger] s[t].record_id == id) <==> {
            let p = first_at_or_after(s, from, id);
            p < s.len() && s[p].record_id == id
        },
{
    let p = first_at_or_after(s, from, id);
    lemma_first_at_or_after(s, from, id);
    if exists|t: int| from <= t < s.len() && #[trigger] s[t].record_id == id {
        let t = choose|t: int| from <= t < s.len() && #[trigger] s[t].record_id == id;
        if p < t {
            assert(s[p].record_id < s[t].record_id);
        }
        if t < p {
            assert(s[t].record_id < id);
        }
        assert(p == t);
    }
}

/// Bounded scan equals drain: no id exceeds the largest one expressible, so
/// a scan bounded by it runs to the end of the list.
pub proof fn lemma_scan_unbounded<W>(s: Seq<PostingElement<W>>, from: int)
    requires
        0 <= from <= s.len(),
    ensures
        first_after(s, from, u32::MAX) == s.len(),
    decreases s.len() - from,
{
    if from < s.len() {
        lemma_scan_unbounded(s, from + 1);
    }
}

/// Bounded scan partitioning: in a list with ascending ids, the entries
/// before the first position past `x` are exactly those with ids at most
/// `x`, and every entry from that position on exceeds `x`.
pub proof fn lemma_scan_partitions<W>(s: Seq<PostingElement<W>>, from: int, x: u32)
    requires
        0 <= from <= s.len(),
        ids_ascending(s),
    ensures
        forall|t: int| from <= t < first_after(s, from, x) ==> #[trigger] s[t].record_id <= x,
        forall|t: int| first_after(s, from, x) <= t < s.len() ==> #[trigger] s[t].record_id > x,
{
    let cut = first_after(s, from, x);
    lemma_first_after(s, from, x);
    assert forall|t: int| cut <= t < s.len() implies #[trigger] s[t].record_id > x by {
        if t > cut {
            assert(s[cut].record_id < s[t].record_id);
        }
    }
}

/// Posting round-trip: entries with strictly ascending ids are determined by
/// what they are as a bag, so any two ascending arrangements of the same
/// entries are one and the same. Building a list from entries with distinct
/// ids and draining it therefore yields exactly those entries, ascending.
pub proof fn lemma_ascending_arrangement_unique<W>(a: Seq<PostingElement<W>>, b: Seq<
    PostingElement<W>>)
    requires
        a.to_multiset() == b.to_multiset(),
        ids_ascending(a),
        ids_ascending(b),
    ensures
        a == b,
    decreases a.len(),
{
    broadcast use vstd::seq_lib::group_to_multiset_ensures;

    if a.len() == 0 || b.len() == 0 {
        assert(a.to_multiset().len() == a.len());
        assert(b.to_multiset().len() == b.len());
        assert(a =~= b);
    } else {
        assert(a.to_multiset().contains(a[0]));
        assert(b.contains(a[0]));
        assert(b.to_multiset().contains(b[0]));
        assert(a.contains(b[0]));
        let i = choose|i: int| 0 <= i < a.len() && a[i] == b[0];
        let k = choose|k: int| 0 <= k < b.len() && b[k] == a[0];
        if i > 0 {
            assert(a[0].record_id < a[i].record_id);
        }
        if k > 0 {
            assert(b[0].record_id < b[k].record_id);
        }
        // both heads carry the least id, so they are the same entry
        assert(a[0] == b[0]);
        assert(a.drop_first() =~= a.remove(0));
        assert(b.drop_first() =~= b.remove(0));
        vstd::seq_lib::to_multiset_remove(a, 0);
        vstd::seq_lib::to_multiset_remove(b, 0);
        assert(a.drop_first().to_multiset() =~= a.to_multiset().remove(a[0]));
        assert(b.drop_first().to_multiset() =~= b.to_multiset().remove(b[0]));
        assert(ids_ascending(a.drop_first())) by {
            assert forall|s: int, t: int|
                0 <= s < t < a.drop_first().len() implies #[trigger] a.drop_first()[s].record_id
                < #[trigger] a.drop_first()[t].record_id by {
                assert(a.drop_first()[s] == a[s + 1] && a.drop_first()[t] == a[t + 1]);
            }
        }
        assert(ids_ascending(b.drop_first())) by {
            assert forall|s: int, t: int|
                0 <= s < t < b.drop_first().len() implies #[trigger] b.drop_first()[s].record_id
                < #[trigger] b.drop_first()[t].record_id by {
                assert(b.drop_first()[s] == b[s + 1] && b.drop_first()[t] == b[t + 1]);
            }
        }
        lemma_ascending_arrangement_unique(a.drop_first(), b.drop_first());
        assert(a =~= b) by {
            assert(a.drop_first() =~= b.drop_first());
            assert forall|t: int| 0 <= t < a.len() implies a[t] == b[t] by {
                if t > 0 {
                    assert(a.drop_first()[t - 1] == b.drop_first()[t - 1]);
                }
            }
        }
    }
}

/// A cursor over one posting list. The list it walks is immutable; the
/// cursor's position only moves forward.
pub trait PostingListIter<W: Weight>: Sized {
    /// The cursor's internal consistency.
    spec fn iter_wf(&self) -> bool;

    /// The whole list being walked, in ascending record-id order.
    spec fn all_elements(&self) -> Seq<PostingElement<W>>;

    /// The current position, from zero to the list length inclusive.
    spec fn position(&self) -> int;

    /// Whether this cursor kind maintains the `max_next_weight` hint.
    spec fn spec_reliable() -> bool;

    /// The entry at the current position, if any, without moving.
    fn peek(&mut self) -> (r: Option<PostingElementEx<W>>)
        requires
            old(self).iter_wf(),
        ensures
            final(self).iter_wf(),
            final(self).all_elements() == old(self).all_elements(),
            final(self).position() == old(self).position(),
            r == (if old(self).position() < old(self).all_elements().len() {
                Some(spec_extend(old(self).all_elements()[old(self).position()]))
            } else {
                None::<PostingElementEx<W>>
            }),
    ;

    /// The highest record id in the list, if the list is not empty.
    fn last_id(&self) -> (r: Option<PointOffsetType>)
        requires
            self.iter_wf(),
        ensures
            r == (if self.all_elements().len() == 0 {
                None::<PointOffsetType>
            } else {
                Some(self.all_elements().last().record_id)
            }),
    ;

    /// Moves forward to the first entry with record id at least `record_id`;
    /// returns it exactly when its id is equal, else reports absence and
    /// stays at the first entry beyond (or at the end).
    fn skip_to(&mut self, record_id: PointOffsetType) -> (r: Option<PostingElementEx<W>>)
        requires
            old(self).iter_wf(),
        ensures
            final(self).iter_wf(),
            final(self).all_elements() == old(self).all_elements(),
            final(self).position() == first_at_or_after(old(self).all_elements(),
                old(self).position(), record_id),
            r == (if final(self).position() < old(self).all_elements().len() && old(
                self).all_elements()[final(self).position()].record_id == record_id {
                Some(spec_extend(old(self).all_elements()[final(self).position()]))
            } else {
                None::<PostingElementEx<W>>
            }),
    ;

    /// Moves past the last entry.
    fn skip_to_end(&mut self)
        requires
            old(self).iter_wf(),
        ensures
            final(self).iter_wf(),
            final(self).all_elements() == old(self).all_elements(),
            final(self).position() == old(self).all_elements().len(),
    ;

    /// How many entries remain from the current position to the end.
    fn len_to_end(&self) -> (r: usize)
        requires
            self.iter_wf(),
        ensures
            r == self.all_elements().len() - self.position(),
    ;

    /// The current position.
    fn current_index(&self) -> (r: usize)
        requires
            self.iter_wf(),
        ensures
            r as int == self.position(),
    ;

    /// Visits every entry from the current position whose record id is at
    /// most `id`, in ascending order, and returns them; afterwards the
    /// cursor stands on the first entry beyond `id` (or at the end), so a
    /// following call resumes exactly where this one stopped.
    fn for_each_till_id(&mut self, id: PointOffsetType) -> (out: Vec<PostingElement<W>>)
        requires
            old(self).iter_wf(),
        ensures
            final(self).iter_wf(),
            final(self).all_elements() == old(self).all_elements(),
            final(self).position() == first_after(old(self).all_elements(), old(self).position(),
                id),
            out@ == old(self).all_elements().subrange(old(self).position(),
                final(self).position()),
    ;

    /// Whether the `max_next_weight` hints this cursor reports are reliable.
    fn reliable_max_next_weight() -> (r: bool)
        ensures
            r == Self::spec_reliable(),
    ;
}

} // verus!
