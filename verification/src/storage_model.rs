//! What a vector storage holds, as mathematics: a dimension, the vectors in
//! the order of their slots, and one deletion flag for each slot.

use crate::types::VectorElementType;
use vstd::prelude::*;

verus! {

/// The number of flags that are set.
pub open spec fn count_set(flags: Seq<bool>) -> nat
    decreases flags.len(),
{
    if flags.len() == 0 {
        0
    } else {
        count_set(flags.drop_last()) + if flags.last() {
            1nat
        } else {
            0nat
        }
    }
}

/// The places below `n` whose flag is not set, in ascending order.
pub open spec fn clear_below(flags: Seq<bool>, n: nat) -> Seq<int>
    decreases n,
{
    if n == 0 {
        Seq::empty()
    } else if flags[n - 1] {
        clear_below(flags, (n - 1) as nat)
    } else {
        clear_below(flags, (n - 1) as nat).push(n - 1)
    }
}

/// The contents of a vector storage.
pub struct StorageModel {
    /// Length of every vector.
    pub dim: nat,
    /// The vector of each slot, deleted or not.
    pub vectors: Seq<Seq<VectorElementType>>,
    /// Whether each slot is deleted.
    pub deleted: Seq<bool>,
}

impl StorageModel {
    /// Every slot has a flag and a vector of the storage's dimension.
    pub open spec fn wf(self) -> bool {
        &&& self.dim > 0
        &&& self.vectors.len() == self.deleted.len()
        &&& forall|k: int|
            0 <= k < self.vectors.len() ==> (#[trigger] self.vectors[k]).len() == self.dim
    }

    /// A storage without slots.
    pub open spec fn empty(dim: nat) -> Self {
        StorageModel { dim, vectors: Seq::empty(), deleted: Seq::empty() }
    }

    /// The number of slots, deleted ones included.
    pub open spec fn slots(self) -> nat {
        self.vectors.len()
    }

    /// The number of deleted slots.
    pub open spec fn deleted_count(self) -> nat {
        count_set(self.deleted)
    }

    /// The number of slots that are not deleted.
    pub open spec fn count(self) -> nat {
        (self.slots() - self.deleted_count()) as nat
    }

    /// The slot exists and is not deleted.
    pub open spec fn is_live(self, k: int) -> bool {
        0 <= k < self.deleted.len() && !self.deleted[k]
    }

    /// The vector of slot `k`, whether deleted or not.
    pub open spec fn get(self, k: int) -> Option<Seq<VectorElementType>> {
        if 0 <= k < self.vectors.len() {
            Some(self.vectors[k])
        } else {
            None
        }
    }

    /// The offsets of the slots that are not deleted, in ascending order.
    pub open spec fn live_offsets(self) -> Seq<int> {
        clear_below(self.deleted, self.deleted.len())
    }

    /// The vectors of the slots that are not deleted, in the order of the slots.
    pub open spec fn live_vectors(self) -> Seq<Seq<VectorElementType>> {
        Seq::new(self.live_offsets().len(), |i: int| self.vectors[self.live_offsets()[i]])
    }

    /// The storage with `v` in a new slot at the end.
    pub open spec fn put(self, v: Seq<VectorElementType>) -> Self {
        StorageModel {
            dim: self.dim,
            vectors: self.vectors.push(v),
            deleted: self.deleted.push(false),
        }
    }

    /// The storage with `vs` in new slots at the end, in their order.
    pub open spec fn ingest(self, vs: Seq<Seq<VectorElementType>>) -> Self {
        StorageModel {
            dim: self.dim,
            vectors: self.vectors + vs,
            deleted: self.deleted + Seq::new(vs.len(), |i: int| false),
        }
    }

    /// The storage after each of `vs` has been put, one after the other.
    pub open spec fn put_all(self, vs: Seq<Seq<VectorElementType>>) -> Self
        decreases vs.len(),
    {
        if vs.len() == 0 {
            self
        } else {
            self.put_all(vs.drop_last()).put(vs.last())
        }
    }

    /// The storage with the vector of slot `k` replaced.
    pub open spec fn update(self, k: int, v: Seq<VectorElementType>) -> Self {
        StorageModel { dim: self.dim, vectors: self.vectors.update(k, v), deleted: self.deleted }
    }

    /// The storage with slot `k` marked as deleted.
    pub open spec fn delete(self, k: int) -> Self {
        StorageModel {
            dim: self.dim,
            vectors: self.vectors,
            deleted: self.deleted.update(k, true),
        }
    }
}

/// No more flags are set than there are flags.
pub proof fn lemma_count_set_bound(flags: Seq<bool>)
    ensures
        count_set(flags) <= flags.len(),
    decreases flags.len(),
{
    if flags.len() > 0 {
        lemma_count_set_bound(flags.drop_last());
    }
}

/// One more flag counts for one more if it is set.
pub proof fn lemma_count_set_push(flags: Seq<bool>, flag: bool)
    ensures
        count_set(flags.push(flag)) == count_set(flags) + if flag {
            1nat
        } else {
            0nat
        },
{
    assert(flags.push(flag).drop_last() =~= flags);
}

/// Flags laid end to end count for the sum.
pub proof fn lemma_count_set_concat(a: Seq<bool>, b: Seq<bool>)
    ensures
        count_set(a + b) == count_set(a) + count_set(b),
    decreases b.len(),
{
    if b.len() == 0 {
        assert(a + b =~= a);
    } else {
        assert((a + b).drop_last() =~= a + b.drop_last());
        lemma_count_set_concat(a, b.drop_last());
    }
}

/// Flags that are all clear count for nothing.
pub proof fn lemma_count_set_clear(n: nat)
    ensures
        count_set(Seq::new(n, |i: int| false)) == 0,
    decreases n,
{
    if n > 0 {
        let fewer = Seq::new((n - 1) as nat, |i: int| false);
        assert(Seq::new(n, |i: int| false).drop_last() =~= fewer);
        lemma_count_set_clear((n - 1) as nat);
    }
}

/// Setting a flag raises the count by one, unless it was set before.
pub proof fn lemma_count_set_update(flags: Seq<bool>, k: int)
    requires
        0 <= k < flags.len(),
    ensures
        count_set(flags.update(k, true)) == count_set(flags) + if flags[k] {
            0nat
        } else {
            1nat
        },
    decreases flags.len(),
{
    let set = flags.update(k, true);
    if k == flags.len() - 1 {
        assert(set.drop_last() =~= flags.drop_last());
    } else {
        assert(set.drop_last() =~= flags.drop_last().update(k, true));
        lemma_count_set_update(flags.drop_last(), k);
    }
}

/// The clear places come in ascending order, each below `n`, and they are
/// the places below `n` whose flag is not set; there are as many of them as flags
/// below `n` that are not set.
pub proof fn lemma_clear_below(flags: Seq<bool>, n: nat)
    requires
        n <= flags.len(),
    ensures
        forall|i: int|
            0 <= i < clear_below(flags, n).len() ==> 0 <= #[trigger] clear_below(flags, n)[i] < n
                && !flags[clear_below(flags, n)[i]],
        forall|i: int, j: int|
            0 <= i < j < clear_below(flags, n).len() ==> #[trigger] clear_below(flags, n)[i]
                < #[trigger] clear_below(flags, n)[j],
        forall|k: int| 0 <= k < n && !flags[k] ==> #[trigger] clear_below(flags, n).contains(k),
        clear_below(flags, n).len() + count_set(flags.take(n as int)) == n,
    decreases n,
{
    if n == 0 {
        assert(flags.take(0) =~= Seq::empty());
    } else {
        let before = clear_below(flags, (n - 1) as nat);
        let now = clear_below(flags, n);
        lemma_clear_below(flags, (n - 1) as nat);
        assert(flags.take(n as int).drop_last() =~= flags.take(n - 1));
        assert forall|k: int| 0 <= k < n && !flags[k] implies #[trigger] now.contains(k) by {
            if k < n - 1 {
                assert(before.contains(k));
                let i = choose|i: int| 0 <= i < before.len() && before[i] == k;
                assert(now[i] == k);
            } else {
                assert(now[now.len() - 1] == k);
            }
        }
    }
}

/// The live offsets are just the offsets of the live slots, and there are
/// as many of them as the storage counts.
pub proof fn lemma_live_offsets(m: StorageModel)
    requires
        m.wf(),
    ensures
        m.live_offsets().len() == m.count(),
        forall|k: int| m.live_offsets().contains(k) <==> m.is_live(k),
        forall|i: int|
            0 <= i < m.live_offsets().len() ==> m.is_live(#[trigger] m.live_offsets()[i]),
        forall|i: int, j: int|
            0 <= i < j < m.live_offsets().len() ==> #[trigger] m.live_offsets()[i]
                < #[trigger] m.live_offsets()[j],
{
    lemma_clear_below(m.deleted, m.deleted.len());
    lemma_count_set_bound(m.deleted);
    assert(m.deleted.take(m.deleted.len() as int) =~= m.deleted);
    assert forall|k: int| m.live_offsets().contains(k) implies m.is_live(k) by {
        let i = choose|i: int| 0 <= i < m.live_offsets().len() && m.live_offsets()[i] == k;
        assert(m.is_live(m.live_offsets()[i]));
    }
}

/// Live and deleted slots together are all the slots there are.
pub proof fn lemma_counts_cover_slots(m: StorageModel)
    requires
        m.wf(),
    ensures
        m.count() + m.deleted_count() == m.slots(),
{
    lemma_count_set_bound(m.deleted);
}

/// Putting vectors one after the other appends them all.
pub proof fn lemma_put_all_is_ingest(m: StorageModel, vs: Seq<Seq<VectorElementType>>)
    ensures
        m.put_all(vs) == m.ingest(vs),
    decreases vs.len(),
{
    let all = m.ingest(vs);
    if vs.len() == 0 {
        assert(all.vectors =~= m.vectors);
        assert(all.deleted =~= m.deleted);
    } else {
        lemma_put_all_is_ingest(m, vs.drop_last());
        let step = m.ingest(vs.drop_last()).put(vs.last());
        assert(step.vectors =~= all.vectors);
        assert(step.deleted =~= all.deleted);
    }
}

/// Appended vectors get the next offsets in their order and are live; what
/// the storage held before stays as it was.
pub proof fn lemma_ingest(m: StorageModel, vs: Seq<Seq<VectorElementType>>)
    requires
        m.wf(),
        forall|i: int| 0 <= i < vs.len() ==> (#[trigger] vs[i]).len() == m.dim,
    ensures
        m.ingest(vs).wf(),
        m.ingest(vs).slots() == m.slots() + vs.len(),
        m.ingest(vs).count() == m.count() + vs.len(),
        m.ingest(vs).deleted_count() == m.deleted_count(),
        forall|i: int|
            0 <= i < vs.len() ==> #[trigger] m.ingest(vs).get(m.slots() + i) == Some(vs[i])
                && m.ingest(vs).is_live(m.slots() + i),
        forall|k: int|
            0 <= k < m.slots() ==> #[trigger] m.ingest(vs).get(k) == m.get(k) && m.ingest(
                vs,
            ).is_live(k) == m.is_live(k),
{
    lemma_count_set_concat(m.deleted, Seq::new(vs.len(), |i: int| false));
    lemma_count_set_clear(vs.len());
    lemma_count_set_bound(m.deleted);
}

/// After any number of puts of vectors of the storage's dimension into an
/// empty storage, the storage counts as many vectors as were put, and
/// hands each back unchanged under the offset that tells its turn.
pub proof fn lemma_puts_are_kept(dim: nat, vs: Seq<Seq<VectorElementType>>)
    requires
        dim > 0,
        forall|i: int| 0 <= i < vs.len() ==> (#[trigger] vs[i]).len() == dim,
    ensures
        StorageModel::empty(dim).put_all(vs).wf(),
        StorageModel::empty(dim).put_all(vs).count() == vs.len(),
        StorageModel::empty(dim).put_all(vs).deleted_count() == 0,
        forall|i: int|
            0 <= i < vs.len() ==> #[trigger] StorageModel::empty(dim).put_all(vs).get(i) == Some(
                vs[i],
            ),
{
    let empty = StorageModel::empty(dim);
    lemma_put_all_is_ingest(empty, vs);
    lemma_ingest(empty, vs);
    let all = empty.ingest(vs);
    assert forall|i: int| 0 <= i < vs.len() implies #[trigger] all.get(i) == Some(vs[i]) by {
        assert(all.get(empty.slots() + i) == Some(vs[i]));
    }
}

/// A deleted slot is not among the live offsets any more, while its vector
/// is still there to be read; the other slots are as they were.
pub proof fn lemma_delete(m: StorageModel, k: int)
    requires
        m.wf(),
        0 <= k < m.slots(),
    ensures
        m.delete(k).wf(),
        !m.delete(k).is_live(k),
        !m.delete(k).live_offsets().contains(k),
        m.delete(k).get(k) == m.get(k),
        m.delete(k).slots() == m.slots(),
        m.delete(k).deleted_count() == m.deleted_count() + if m.is_live(k) {
            1nat
        } else {
            0nat
        },
        forall|j: int| j != k ==> m.delete(k).is_live(j) == m.is_live(j),
        forall|j: int| m.delete(k).get(j) == m.get(j),
{
    lemma_live_offsets(m.delete(k));
    lemma_count_set_update(m.deleted, k);
}

/// Deleting a slot a second time changes nothing.
pub proof fn lemma_delete_twice(m: StorageModel, k: int)
    requires
        m.wf(),
        0 <= k < m.slots(),
    ensures
        m.delete(k).delete(k) == m.delete(k),
{
    assert(m.delete(k).delete(k).deleted =~= m.delete(k).deleted);
}

/// Taking in the live vectors of another storage of the same dimension
/// adds as many slots as the other has live vectors, and each new slot, in
/// turn, holds the vector of the other's live slot of the same turn.
pub proof fn lemma_ingest_from(m: StorageModel, other: StorageModel)
    requires
        m.wf(),
        other.wf(),
        m.dim == other.dim,
    ensures
        m.ingest(other.live_vectors()).wf(),
        other.live_vectors().len() == other.count(),
        m.ingest(other.live_vectors()).slots() == m.slots() + other.count(),
        forall|i: int|
            0 <= i < other.count() ==> #[trigger] m.ingest(other.live_vectors()).get(
                m.slots() + i,
            ) == other.get(other.live_offsets()[i]) && other.is_live(other.live_offsets()[i])
                && m.ingest(other.live_vectors()).is_live(m.slots() + i),
        forall|k: int|
            0 <= k < m.slots() ==> #[trigger] m.ingest(other.live_vectors()).get(k) == m.get(k),
{
    lemma_live_offsets(other);
    lemma_ingest(m, other.live_vectors());
    let all = m.ingest(other.live_vectors());
    assert forall|i: int| 0 <= i < other.count() implies #[trigger] all.get(m.slots() + i)
        == other.get(other.live_offsets()[i]) && other.is_live(other.live_offsets()[i])
        && all.is_live(m.slots() + i) by {
        assert(other.is_live(other.live_offsets()[i]));
        assert(all.get(m.slots() + i) == Some(other.live_vectors()[i]));
    }
}

} // verus!
