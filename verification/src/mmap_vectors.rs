//! The table of vectors and its deletion flags, as the byte images of the
//! two files that hold them.
//!
//! The vectors file is a flat array of records without a header, one record
//! for each slot, each record the elements of one vector. The flags file has
//! one byte for each slot: zero while the slot is live, anything else once it
//! is deleted.

use crate::encoding::{append_encoded, decode, encode, lemma_decode_encode, read_elements};
use crate::storage_model::{
    count_set,
    lemma_count_set_bound,
    lemma_count_set_push,
    lemma_count_set_update,
    StorageModel,
};
use crate::types::{OperationError, OperationResult, PointOffsetType, VectorElementType};
use vstd::arithmetic::div_mod::{
    lemma_fundamental_div_mod,
    lemma_fundamental_div_mod_converse,
    lemma_mod_bound,
};
use vstd::arithmetic::mul::lemma_mul_is_commutative;
use vstd::prelude::*;

verus! {

/// A dimension that a table can have: at least one element, and a record
/// whose size can be counted.
pub open spec fn valid_dimension(dim: nat) -> bool {
    dim > 0 && 4 * dim <= usize::MAX
}

/// Bytes that one record takes.
pub open spec fn record_size(dim: nat) -> nat {
    4 * dim
}

/// The two images fit each other and the dimension: the vectors are whole
/// records, and there is one flag for each record.
pub open spec fn is_consistent(vectors: Seq<u8>, deleted: Seq<u8>, dim: nat) -> bool {
    &&& valid_dimension(dim)
    &&& vectors.len() % record_size(dim) == 0
    &&& deleted.len() == vectors.len() / record_size(dim)
}

/// The vector in record `k` of the vectors image.
pub open spec fn record(vectors: Seq<u8>, dim: nat, k: int) -> Seq<VectorElementType> {
    decode(vectors.subrange(k * record_size(dim), k * record_size(dim) + record_size(dim)))
}

/// The deletion flags that the flags image holds.
pub open spec fn flags(deleted: Seq<u8>) -> Seq<bool> {
    Seq::new(deleted.len(), |k: int| deleted[k] != 0)
}

/// What a storage with these two images holds.
pub open spec fn table_model(vectors: Seq<u8>, deleted: Seq<u8>, dim: nat) -> StorageModel {
    StorageModel {
        dim,
        vectors: Seq::new(deleted.len(), |k: int| record(vectors, dim, k)),
        deleted: flags(deleted),
    }
}

/// Record `k` of `n` records lies within them.
pub proof fn lemma_record_bounds(n: int, size: int, k: int)
    by (nonlinear_arith)
    requires
        0 <= k < n,
        0 < size,
    ensures
        0 <= k * size,
        k * size + size <= n * size,
        n <= n * size,
{
}

/// `n + more` records of `size` bytes fit below `limit` just when `n + more`
/// is no more than the number of whole records below `limit`.
pub proof fn lemma_room(n: int, more: int, size: int, limit: int)
    requires
        0 <= n,
        0 <= more,
        0 < size,
        0 <= limit,
    ensures
        (n + more) * size <= limit <==> n + more <= limit / size,
        n * size <= limit <==> n <= limit / size,
{
    lemma_fundamental_div_mod(limit, size);
    lemma_mod_bound(limit, size);
    let most = limit / size;
    assert(limit == size * most + limit % size);
    assert((n + more) * size <= limit <==> n + more <= most) by (nonlinear_arith)
        requires
            limit == size * most + limit % size,
            0 <= limit % size < size,
            0 < size,
    ;
    assert(n * size <= limit <==> n <= most) by (nonlinear_arith)
        requires
            limit == size * most + limit % size,
            0 <= limit % size < size,
            0 < size,
    ;
}

/// In consistent images the vectors take one record for each flag.
pub proof fn lemma_consistent_len(vectors: Seq<u8>, deleted: Seq<u8>, dim: nat)
    requires
        is_consistent(vectors, deleted, dim),
    ensures
        vectors.len() == deleted.len() * record_size(dim),
{
    let size = record_size(dim) as int;
    lemma_fundamental_div_mod(vectors.len() as int, size);
    lemma_mul_is_commutative(size, vectors.len() as int / size);
}

/// Images in which the vectors take one record for each flag are consistent.
pub proof fn lemma_len_consistent(vectors: Seq<u8>, deleted: Seq<u8>, dim: nat)
    requires
        valid_dimension(dim),
        vectors.len() == deleted.len() * record_size(dim),
    ensures
        is_consistent(vectors, deleted, dim),
{
    let size = record_size(dim) as int;
    lemma_fundamental_div_mod_converse(
        vectors.len() as int,
        size,
        deleted.len() as int,
        0,
    );
}

/// Consistent images hold a well-formed storage.
pub proof fn lemma_table_model_wf(vectors: Seq<u8>, deleted: Seq<u8>, dim: nat)
    requires
        is_consistent(vectors, deleted, dim),
    ensures
        table_model(vectors, deleted, dim).wf(),
{
    let m = table_model(vectors, deleted, dim);
    lemma_consistent_len(vectors, deleted, dim);
    assert forall|k: int| 0 <= k < m.vectors.len() implies (#[trigger] m.vectors[k]).len()
        == dim by {
        lemma_record_bounds(deleted.len() as int, record_size(dim) as int, k);
    }
}

/// The table of vectors with its deletion flags.
pub struct MmapVectors {
    dim: usize,
    num_vectors: usize,
    deleted_count: usize,
    vectors: Vec<u8>,
    deleted: Vec<u8>,
}

impl MmapVectors {
    /// The image of the vectors file.
    pub closed spec fn vectors_bytes(&self) -> Seq<u8> {
        self.vectors@
    }

    /// The image of the flags file.
    pub closed spec fn deleted_bytes(&self) -> Seq<u8> {
        self.deleted@
    }

    /// The length of every vector.
    pub closed spec fn dimension(&self) -> nat {
        self.dim as nat
    }

    /// The counts that the table keeps are those of its images.
    pub closed spec fn counts_kept(&self) -> bool {
        &&& self.num_vectors == self.deleted@.len()
        &&& self.deleted_count == count_set(flags(self.deleted@))
    }

    /// What the table holds.
    pub open spec fn view(&self) -> StorageModel {
        table_model(self.vectors_bytes(), self.deleted_bytes(), self.dimension())
    }

    /// The images fit each other, and the counts fit the images.
    pub open spec fn wf(&self) -> bool {
        &&& is_consistent(self.vectors_bytes(), self.deleted_bytes(), self.dimension())
        &&& self.counts_kept()
    }

    /// A table that is in order has slots that can be counted.
    pub proof fn lemma_slots_counted(&self)
        requires
            self.wf(),
        ensures
            self@.slots() <= usize::MAX,
    {
        assert(self.deleted@.len() == self.deleted.len());
    }

    /// The vectors image can grow by `more` records and still be addressed.
    pub open spec fn has_room(&self, more: nat) -> bool {
        (self@.slots() + more) * record_size(self.dimension()) <= usize::MAX
    }

    /// Makes a table of the images of the two files. An image of whole
    /// records with one flag for each is taken as it is; anything else is
    /// refused, and nothing is cut off to make it fit.
    pub fn open(vectors: Vec<u8>, deleted: Vec<u8>, dim: usize) -> (r: OperationResult<
        MmapVectors,
    >)
        ensures
            match r {
                Ok(table) => {
                    &&& is_consistent(vectors@, deleted@, dim as nat)
                    &&& table.wf()
                    &&& table.vectors_bytes() == vectors@
                    &&& table.deleted_bytes() == deleted@
                    &&& table.dimension() == dim
                },
                Err(e) => {
                    &&& !is_consistent(vectors@, deleted@, dim as nat)
                    &&& e == if valid_dimension(dim as nat) {
                        OperationError::Corruption
                    } else {
                        OperationError::DimensionMismatch
                    }
                },
            },
    {
        if dim == 0 || dim > usize::MAX / 4 {
            return Err(OperationError::DimensionMismatch);
        }
        let size: usize = 4 * dim;
        if vectors.len() % size != 0 || deleted.len() != vectors.len() / size {
            return Err(OperationError::Corruption);
        }
        let mut deleted_count: usize = 0;
        let mut i: usize = 0;
        while i < deleted.len()
            invariant
                i <= deleted.len(),
                deleted_count == count_set(flags(deleted@).take(i as int)),
                deleted_count <= i,
            decreases deleted.len() - i,
        {
            proof {
                assert(flags(deleted@).take(i + 1).drop_last() =~= flags(deleted@).take(i as int));
            }
            if deleted[i] != 0 {
                deleted_count += 1;
            }
            i += 1;
        }
        assert(flags(deleted@).take(deleted.len() as int) =~= flags(deleted@));
        let num_vectors = deleted.len();
        Ok(MmapVectors { dim, num_vectors, deleted_count, vectors, deleted })
    }

    /// The length of every vector.
    pub fn dim(&self) -> (r: usize)
        ensures
            r == self.dimension(),
    {
        self.dim
    }

    /// The number of slots, deleted ones included.
    pub fn num_vectors(&self) -> (r: usize)
        requires
            self.wf(),
        ensures
            r == self@.slots(),
    {
        self.num_vectors
    }

    /// The number of deleted slots.
    pub fn deleted_count(&self) -> (r: usize)
        requires
            self.wf(),
        ensures
            r == self@.deleted_count(),
            r <= self@.slots(),
    {
        proof {
            lemma_count_set_bound(flags(self.deleted@));
        }
        self.deleted_count
    }

    /// Whether the table can grow by `more` slots.
    pub fn has_room_for(&self, more: usize) -> (r: bool)
        requires
            self.wf(),
        ensures
            r == self.has_room(more as nat),
    {
        let size: usize = 4 * self.dim;
        let most: usize = usize::MAX / size;
        proof {
            let n = self.num_vectors as int;
            lemma_consistent_len(self.vectors@, self.deleted@, self.dim as nat);
            assert(self.vectors@.len() == self.vectors.len());
            lemma_room(n, more as int, size as int, usize::MAX as int);
            assert((n + more) * size == (self@.slots() + more) * record_size(self.dimension()))
                by (nonlinear_arith)
                requires
                    n == self@.slots(),
                    size == record_size(self.dimension()),
            ;
            assert(n * size == self@.slots() * record_size(self.dimension())) by (nonlinear_arith)
                requires
                    n == self@.slots(),
                    size == record_size(self.dimension()),
            ;
        }
        self.num_vectors <= most && more <= most - self.num_vectors
    }

    /// The image of the vectors file.
    pub fn vectors_image(&self) -> (r: &Vec<u8>)
        ensures
            r@ == self.vectors_bytes(),
    {
        &self.vectors
    }

    /// The image of the flags file.
    pub fn deleted_image(&self) -> (r: &Vec<u8>)
        ensures
            r@ == self.deleted_bytes(),
    {
        &self.deleted
    }

    /// The vector of slot `key`, deleted or not; `None` beyond the last slot.
    pub fn raw_vector(&self, key: PointOffsetType) -> (r: Option<Vec<VectorElementType>>)
        requires
            self.wf(),
        ensures
            match r {
                Some(v) => self@.get(key as int) == Some(v@),
                None => self@.get(key as int) is None,
            },
    {
        if key >= self.num_vectors {
            return None;
        }
        let size: usize = 4 * self.dim;
        proof {
            lemma_consistent_len(self.vectors@, self.deleted@, self.dim as nat);
            lemma_record_bounds(self.num_vectors as int, size as int, key as int);
            assert(self.vectors@.len() == self.num_vectors * size) by (nonlinear_arith)
                requires
                    self.vectors@.len() == self.num_vectors * (4 * self.dim),
                    size == 4 * self.dim,
            ;
            assert(self.vectors@.len() == self.vectors.len());
        }
        let start: usize = key * size;
        let v = read_elements(&self.vectors, start, self.dim);
        Some(v)
    }

    /// Whether slot `key` is deleted; `None` beyond the last slot.
    pub fn deleted(&self, key: PointOffsetType) -> (r: Option<bool>)
        requires
            self.wf(),
        ensures
            r == if key < self@.slots() {
                Some(self@.deleted[key as int])
            } else {
                None
            },
    {
        if key < self.num_vectors {
            Some(self.deleted[key] != 0)
        } else {
            None
        }
    }

    /// Marks slot `key` as deleted. The vector stays where it is, and a slot
    /// that is deleted already stays deleted.
    pub fn delete(&mut self, key: PointOffsetType) -> (r: OperationResult<()>)
        requires
            old(self).wf(),
        ensures
            final(self).wf(),
            final(self).dimension() == old(self).dimension(),
            final(self).vectors_bytes() == old(self).vectors_bytes(),
            match r {
                Ok(_) => {
                    &&& key < old(self)@.slots()
                    &&& final(self)@ == old(self)@.delete(key as int)
                    &&& final(self).deleted_bytes() == old(self).deleted_bytes().update(
                        key as int,
                        if old(self).deleted_bytes()[key as int] != 0 {
                            old(self).deleted_bytes()[key as int]
                        } else {
                            1u8
                        },
                    )
                },
                Err(e) => {
                    &&& e == OperationError::OutOfRange
                    &&& key >= old(self)@.slots()
                    &&& *final(self) == *old(self)
                },
            },
    {
        if key >= self.num_vectors {
            return Err(OperationError::OutOfRange);
        }
        let ghost before = self.deleted@;
        proof {
            lemma_consistent_len(self.vectors@, before, self.dim as nat);
        }
        if self.deleted[key] == 0 {
            proof {
                lemma_count_set_update(flags(before), key as int);
                lemma_count_set_bound(flags(before).update(key as int, true));
            }
            self.deleted.set(key, 1);
            self.deleted_count += 1;
            proof {
                assert(flags(self.deleted@) =~= flags(before).update(key as int, true));
                lemma_len_consistent(self.vectors@, self.deleted@, self.dim as nat);
            }
        } else {
            proof {
                assert(self.deleted@ =~= before.update(key as int, before[key as int]));
                assert(flags(before).update(key as int, true) =~= flags(before));
            }
        }
        proof {
            assert(final(self)@.vectors =~= old(self)@.vectors);
            assert(final(self)@.deleted =~= old(self)@.delete(key as int).deleted);
        }
        Ok(())
    }

    /// Appends `v` in a new slot, which is live, and returns its offset.
    pub fn push_vector(&mut self, v: &Vec<VectorElementType>) -> (offset: PointOffsetType)
        requires
            old(self).wf(),
            v.len() == old(self).dimension(),
            (old(self)@.slots() + 1) * record_size(old(self).dimension()) <= usize::MAX,
        ensures
            final(self).wf(),
            offset == old(self)@.slots(),
            final(self)@ == old(self)@.put(v@),
            final(self).dimension() == old(self).dimension(),
            final(self).vectors_bytes() == old(self).vectors_bytes() + encode(v@),
            final(self).deleted_bytes() == old(self).deleted_bytes().push(0u8),
    {
        let ghost size = record_size(self.dim as nat) as int;
        let ghost n = self.num_vectors as int;
        let ghost old_vectors = self.vectors@;
        let ghost old_deleted = self.deleted@;
        proof {
            lemma_consistent_len(old_vectors, old_deleted, self.dim as nat);
            lemma_record_bounds(n + 1, size, n);
            lemma_count_set_push(flags(old_deleted), false);
        }
        let offset = self.num_vectors;
        append_encoded(&mut self.vectors, v);
        self.deleted.push(0u8);
        self.num_vectors += 1;
        proof {
            assert(flags(self.deleted@) =~= flags(old_deleted).push(false));
            assert(self.vectors@.len() == (n + 1) * size) by (nonlinear_arith)
                requires
                    self.vectors@.len() == n * size + size,
            ;
            lemma_len_consistent(self.vectors@, self.deleted@, self.dim as nat);
            let now = final(self)@;
            let then = old(self)@.put(v@);
            assert forall|k: int| 0 <= k < n + 1 implies now.vectors[k] == then.vectors[k] by {
                lemma_record_bounds(n + 1, size, k);
                if k < n {
                    lemma_record_bounds(n, size, k);
                    assert(self.vectors@.subrange(k * size, k * size + size)
                        =~= old_vectors.subrange(k * size, k * size + size));
                } else {
                    assert(self.vectors@.subrange(k * size, k * size + size) =~= encode(v@));
                    lemma_decode_encode(v@);
                }
            }
            assert(now.vectors =~= then.vectors);
            assert(now.deleted =~= then.deleted);
        }
        offset
    }
}

} // verus!
