//! The fixed-slot table: an ordered sequence of equally sized byte slots,
//! stored back to back in one flat byte image (the table file's contents).

use vstd::prelude::*;

use crate::table_trait::TableTrait;
use crate::StoreError;

verus! {

/// In-memory image of one table file.  The byte image is always an exact
/// multiple of the slot width; slot `idx` occupies the byte range
/// `[idx * block_size, (idx + 1) * block_size)`.
pub struct Table {
    block_size: usize,
    data: Vec<u8>,
}

/// Places slot `idx` of a table with slot width `bs` inside a byte image of
/// length `len`: the slot's bytes lie entirely within the image.
pub proof fn lemma_slot_in_data(len: int, bs: int, idx: int)
    requires
        bs > 0,
        len % bs == 0,
        0 <= idx < len / bs,
    ensures
        0 <= idx * bs,
        idx * bs + bs <= len,
{
    vstd::arithmetic::div_mod::lemma_fundamental_div_mod(len, bs);
    vstd::arithmetic::mul::lemma_mul_is_commutative(bs, len / bs);
    vstd::arithmetic::mul::lemma_mul_inequality(idx + 1, len / bs, bs);
    vstd::arithmetic::mul::lemma_mul_is_distributive_add_other_way(bs, idx, 1);
    vstd::arithmetic::mul::lemma_mul_nonnegative(idx, bs);
}

/// A table built by inserting `blocks` in order, starting from empty: it
/// holds exactly those blocks, each in the slot of its insertion rank.
pub open spec fn spec_built_from(t: &Table, blocks: Seq<Seq<u8>>) -> bool {
    &&& t.spec_size() == blocks.len()
    &&& forall|i: int| 0 <= i < blocks.len() ==> t.spec_slot(i) == blocks[i]
}

/// Table round trip, base case: an empty table is built from no blocks.
pub proof fn lemma_round_trip_empty(t: &Table)
    requires
        t.spec_size() == 0,
    ensures
        spec_built_from(t, Seq::<Seq<u8>>::empty()),
{
}

/// Table round trip, inductive step: one `insert` turns a table built from
/// `blocks` into a table built from `blocks` plus the inserted block — the
/// hypotheses are exactly `insert`'s contract.
pub proof fn lemma_round_trip_insert(t1: &Table, t2: &Table, blocks: Seq<Seq<u8>>, b: Seq<u8>)
    requires
        spec_built_from(t1, blocks),
        t2.spec_size() == t1.spec_size() + 1,
        forall|i: int| 0 <= i < t1.spec_size() ==> t2.spec_slot(i) == t1.spec_slot(i),
        t2.spec_slot(t1.spec_size()) == b,
    ensures
        spec_built_from(t2, blocks.push(b)),
{
}

/// Table round trip, read-back: on a table built from `blocks`, a `get` of
/// slot `i` — whose contract pins its result to `spec_slot(i)` — returns
/// exactly the `i`-th inserted block.
pub proof fn lemma_round_trip_get(t: &Table, blocks: Seq<Seq<u8>>, i: int)
    requires
        spec_built_from(t, blocks),
        0 <= i < blocks.len(),
    ensures
        t.spec_slot(i) == blocks[i],
{
}

/// Range reads equal single reads: element `i` of a `get_many(a, b)` result
/// and the result of `get(a + i)` are pinned to the same slot bytes, so they
/// coincide.
pub proof fn lemma_range_read_equivalence(
    t: &Table,
    idx_from: int,
    many: Seq<Seq<u8>>,
    single: Seq<u8>,
    i: int,
)
    requires
        forall|k: int| 0 <= k < many.len() ==> many[k] == t.spec_slot(idx_from + k),
        single == t.spec_slot(idx_from + i),
        0 <= i < many.len(),
    ensures
        many[i] == single,
{
}

/// Reads are idempotent: two `get`s of the same slot with no write between
/// them return the same bytes, both being pinned to `spec_slot`.
pub proof fn lemma_get_idempotent(t: &Table, idx: int, r1: Seq<u8>, r2: Seq<u8>)
    requires
        r1 == t.spec_slot(idx),
        r2 == t.spec_slot(idx),
    ensures
        r1 == r2,
{
}

impl Table {
    /// The slot width in bytes.
    pub closed spec fn spec_block_size(&self) -> int {
        self.block_size as int
    }

    /// The full byte image of the table file.
    pub closed spec fn spec_data(&self) -> Seq<u8> {
        self.data@
    }

    /// Well-formedness: a positive slot width, and an image that is an exact
    /// multiple of it.
    pub open spec fn wf(&self) -> bool {
        &&& self.spec_block_size() > 0
        &&& self.spec_data().len() as int % self.spec_block_size() == 0
    }

    /// The number of slots: image length divided by slot width.
    pub open spec fn spec_size(&self) -> int {
        self.spec_data().len() as int / self.spec_block_size()
    }

    /// The bytes of slot `idx`.
    pub open spec fn spec_slot(&self, idx: int) -> Seq<u8> {
        self.spec_data().subrange(
            idx * self.spec_block_size(),
            idx * self.spec_block_size() + self.spec_block_size(),
        )
    }

    /// A slot that exists lies within the image and has exactly one slot
    /// width of bytes.
    pub proof fn lemma_slot_len(&self, idx: int)
        requires
            self.wf(),
            0 <= idx < self.spec_size(),
        ensures
            0 <= idx * self.spec_block_size(),
            idx * self.spec_block_size() + self.spec_block_size() <= self.spec_data().len(),
            self.spec_slot(idx).len() == self.spec_block_size(),
    {
        lemma_slot_in_data(self.spec_data().len() as int, self.spec_block_size(), idx);
    }

    /// The slot count never exceeds the image length.
    pub proof fn lemma_size_le_len(&self)
        requires
            self.wf(),
        ensures
            0 <= self.spec_size() <= self.spec_data().len(),
            self.spec_data().len() <= usize::MAX,
    {
        vstd::std_specs::vec::axiom_spec_len(&self.data);
        vstd::arithmetic::div_mod::lemma_div_pos_is_pos(self.spec_data().len() as int, self.spec_block_size());
        vstd::arithmetic::div_mod::lemma_div_nonincreasing(self.spec_data().len() as int, self.spec_block_size());
    }

    /// Creates an empty table with the given slot width.
    pub fn with_block_size(block_size: usize) -> (t: Table)
        requires
            block_size > 0,
        ensures
            t.wf(),
            t.spec_block_size() == block_size,
            t.spec_size() == 0,
            t.spec_data() == Seq::<u8>::empty(),
    {
        let t = Table { block_size, data: Vec::new() };
        proof {
            vstd::arithmetic::div_mod::lemma_small_mod(0nat, block_size as nat);
        }
        t
    }

    /// Creates an empty table sized for records of type `T`.
    pub fn new<T: TableTrait>() -> (t: Table)
        ensures
            t.wf(),
            t.spec_block_size() == T::spec_block_size(),
            t.spec_size() == 0,
            t.spec_data() == Seq::<u8>::empty(),
    {
        proof {
            T::lemma_block_size();
        }
        Table::with_block_size(T::block_size())
    }

    /// Adopts an existing byte image (for example one read from disk) as a
    /// table with the given slot width.  Rejects an image whose length is not
    /// a multiple of the slot width.
    pub fn open(block_size: usize, data: Vec<u8>) -> (r: Result<Table, StoreError>)
        requires
            block_size > 0,
        ensures
            match r {
                Ok(t) => {
                    &&& data@.len() as int % block_size as int == 0
                    &&& t.wf()
                    &&& t.spec_block_size() == block_size
                    &&& t.spec_data() == data@
                },
                Err(e) => {
                    &&& data@.len() as int % block_size as int != 0
                    &&& e == StoreError::OutOfBounds
                },
            },
    {
        if data.len() % block_size != 0 {
            return Err(StoreError::OutOfBounds);
        }
        Ok(Table { block_size, data })
    }

    /// The byte image, for persisting the table.
    pub fn data(&self) -> (r: &Vec<u8>)
        ensures
            r@ == self.spec_data(),
    {
        &self.data
    }

    /// The number of slots currently stored.
    pub fn size(&self) -> (r: usize)
        requires
            self.wf(),
        ensures
            r as int == self.spec_size(),
    {
        self.data.len() / self.block_size
    }

    /// Whether the table holds no slots.
    pub fn empty(&self) -> (r: bool)
        requires
            self.wf(),
        ensures
            r == (self.spec_size() == 0),
    {
        self.size() == 0
    }

    /// Reads the bytes of slot `idx`; fails exactly when the slot does not
    /// exist.
    pub fn get(&self, idx: usize) -> (r: Result<Vec<u8>, StoreError>)
        requires
            self.wf(),
        ensures
            match r {
                Ok(b) => idx < self.spec_size() && b@ == self.spec_slot(idx as int),
                Err(e) => idx >= self.spec_size() && e == StoreError::OutOfBounds,
            },
    {
        if idx >= self.size() {
            return Err(StoreError::OutOfBounds);
        }
        proof {
            self.lemma_slot_len(idx as int);
            self.lemma_size_le_len();
        }
        let start: usize = idx * self.block_size;
        let block = vstd::slice::slice_to_vec(
            vstd::slice::slice_subrange(self.data.as_slice(), start, start + self.block_size),
        );
        Ok(block)
    }

    /// Reads slots `idx_from` (inclusive) to `idx_to` (exclusive) in one go;
    /// fails exactly when the range reaches past the end of the table.
    pub fn get_many(&self, idx_from: usize, idx_to: usize) -> (r: Result<
        Vec<Vec<u8>>,
        StoreError,
    >)
        requires
            self.wf(),
            idx_from <= idx_to,
        ensures
            match r {
                Ok(blocks) => {
                    &&& idx_to <= self.spec_size()
                    &&& blocks@.len() == idx_to - idx_from
                    &&& forall|i: int|
                        0 <= i < blocks@.len() ==> (#[trigger] blocks@[i])@ == self.spec_slot(
                            idx_from + i,
                        )
                },
                Err(e) => idx_to > self.spec_size() && e == StoreError::OutOfBounds,
            },
    {
        if idx_to > self.size() {
            return Err(StoreError::OutOfBounds);
        }
        let mut blocks: Vec<Vec<u8>> = Vec::new();
        let mut i: usize = idx_from;
        while i < idx_to
            invariant
                self.wf(),
                idx_from <= i <= idx_to,
                idx_to <= self.spec_size(),
                blocks@.len() == i - idx_from,
                forall|k: int|
                    0 <= k < blocks@.len() ==> (#[trigger] blocks@[k])@ == self.spec_slot(
                        idx_from + k,
                    ),
            decreases idx_to - i,
        {
            let b = match self.get(i) {
                Ok(b) => b,
                Err(e) => {
                    return Err(e);
                },
            };
            blocks.push(b);
            i = i + 1;
        }
        Ok(blocks)
    }

    /// Appends one slot at the end of the table and returns its index, which
    /// equals the table's size before the call.
    pub fn insert(&mut self, block: &[u8]) -> (r: Result<usize, StoreError>)
        requires
            old(self).wf(),
            block@.len() == old(self).spec_block_size(),
        ensures
            final(self).wf(),
            final(self).spec_block_size() == old(self).spec_block_size(),
            final(self).spec_data() == old(self).spec_data() + block@,
            final(self).spec_size() == old(self).spec_size() + 1,
            forall|i: int|
                0 <= i < old(self).spec_size() ==> final(self).spec_slot(i)
                    == old(self).spec_slot(i),
            final(self).spec_slot(old(self).spec_size()) == block@,
            r matches Ok(idx) && idx as int == old(self).spec_size(),
    {
        let idx = self.size();
        let mut j: usize = 0;
        while j < block.len()
            invariant
                self.block_size == old(self).block_size,
                j <= block@.len(),
                self.spec_data() == old(self).spec_data() + block@.subrange(0, j as int),
            decreases block@.len() - j,
        {
            let b = *vstd::slice::slice_index_get(block, j);
            self.data.push(b);
            proof {
                assert(self.spec_data() =~= old(self).spec_data() + block@.subrange(
                    0,
                    j as int + 1,
                ));
            }
            j = j + 1;
        }
        proof {
            assert(self.spec_data() =~= old(self).spec_data() + block@);
            let bs = old(self).spec_block_size();
            let len0 = old(self).spec_data().len() as int;
            let len1 = self.spec_data().len() as int;
            vstd::arithmetic::div_mod::lemma_add_mod_noop(len0, bs, bs);
            vstd::arithmetic::div_mod::lemma_mod_self_0(bs);
            vstd::arithmetic::div_mod::lemma_small_mod(0nat, bs as nat);
            assert(len1 % bs == 0);
            vstd::arithmetic::div_mod::lemma_div_plus_one(len0, bs);
            assert(self.spec_size() == old(self).spec_size() + 1);
            assert forall|i: int| 0 <= i < old(self).spec_size() implies self.spec_slot(i)
                == old(self).spec_slot(i) by {
                old(self).lemma_slot_len(i);
                self.lemma_slot_len(i);
                assert(self.spec_slot(i) =~= old(self).spec_slot(i));
            }
            let n = old(self).spec_size();
            lemma_slot_in_data(len1, bs, n);
            assert(n * bs == len0) by {
                vstd::arithmetic::div_mod::lemma_fundamental_div_mod(len0, bs);
                vstd::arithmetic::mul::lemma_mul_is_commutative(bs, n);
            }
            assert(self.spec_slot(n) =~= block@);
        }
        Ok(idx)
    }

    /// Overwrites slot `idx` in place; fails exactly when the slot does not
    /// exist, leaving the table unchanged.
    pub fn update(&mut self, block: &[u8], idx: usize) -> (r: Result<(), StoreError>)
        requires
            old(self).wf(),
            block@.len() == old(self).spec_block_size(),
        ensures
            final(self).wf(),
            final(self).spec_block_size() == old(self).spec_block_size(),
            final(self).spec_size() == old(self).spec_size(),
            match r {
                Ok(()) => {
                    &&& idx < old(self).spec_size()
                    &&& final(self).spec_slot(idx as int) == block@
                    &&& forall|i: int|
                        0 <= i < old(self).spec_size() && i != idx ==> final(self).spec_slot(i)
                            == old(self).spec_slot(i)
                },
                Err(e) => {
                    &&& idx >= old(self).spec_size()
                    &&& e == StoreError::OutOfBounds
                    &&& *final(self) == *old(self)
                },
            },
    {
        if idx >= self.size() {
            return Err(StoreError::OutOfBounds);
        }
        proof {
            old(self).lemma_slot_len(idx as int);
            old(self).lemma_size_le_len();
        }
        let start: usize = idx * self.block_size;
        let mut j: usize = 0;
        while j < self.block_size
            invariant
                old(self).wf(),
                self.block_size == old(self).block_size,
                start == idx as int * old(self).spec_block_size(),
                start + old(self).spec_block_size() <= old(self).spec_data().len(),
                old(self).spec_data().len() <= usize::MAX,
                block@.len() == old(self).spec_block_size(),
                j <= self.block_size,
                self.spec_data().len() == old(self).spec_data().len(),
                forall|k: int|
                    0 <= k < self.spec_data().len() && !(start <= k < start + j)
                        ==> self.spec_data()[k] == old(self).spec_data()[k],
                forall|k: int| 0 <= k < j ==> self.spec_data()[start + k] == block@[k],
            decreases self.block_size - j,
        {
            let b = *vstd::slice::slice_index_get(block, j);
            self.data[start + j] = b;
            j = j + 1;
        }
        proof {
            assert(self.wf());
            assert(self.spec_size() == old(self).spec_size());
            assert(self.spec_slot(idx as int) =~= block@);
            assert forall|i: int| 0 <= i < old(self).spec_size() && i != idx implies self.spec_slot(
                i,
            ) == old(self).spec_slot(i) by {
                old(self).lemma_slot_len(i);
                let bs = old(self).spec_block_size();
                if i < idx {
                    vstd::arithmetic::mul::lemma_mul_inequality(i + 1, idx as int, bs);
                    vstd::arithmetic::mul::lemma_mul_is_distributive_add_other_way(bs, i, 1);
                } else {
                    vstd::arithmetic::mul::lemma_mul_inequality(idx as int + 1, i, bs);
                    vstd::arithmetic::mul::lemma_mul_is_distributive_add_other_way(
                        bs,
                        idx as int,
                        1,
                    );
                }
                assert(self.spec_slot(i) =~= old(self).spec_slot(i));
            }
        }
        Ok(())
    }

    /// Reads every slot between two indices as `(index, bytes)` pairs; fails
    /// exactly when the range reaches past the end of the table.
    pub fn iter_between(&self, idx_from: usize, idx_to: usize) -> (r: Result<
        Vec<(usize, Vec<u8>)>,
        StoreError,
    >)
        requires
            self.wf(),
            idx_from <= idx_to,
        ensures
            match r {
                Ok(entries) => {
                    &&& idx_to <= self.spec_size()
                    &&& entries@.len() == idx_to - idx_from
                    &&& forall|i: int|
                        0 <= i < entries@.len() ==> (#[trigger] entries@[i]).0 == idx_from + i
                            && entries@[i].1@ == self.spec_slot(idx_from + i)
                },
                Err(e) => idx_to > self.spec_size() && e == StoreError::OutOfBounds,
            },
    {
        if idx_to > self.size() {
            return Err(StoreError::OutOfBounds);
        }
        let mut entries: Vec<(usize, Vec<u8>)> = Vec::new();
        let mut i: usize = idx_from;
        while i < idx_to
            invariant
                self.wf(),
                idx_from <= i <= idx_to,
                idx_to <= self.spec_size(),
                entries@.len() == i - idx_from,
                forall|k: int|
                    0 <= k < entries@.len() ==> (#[trigger] entries@[k]).0 == idx_from + k
                        && entries@[k].1@ == self.spec_slot(idx_from + k),
            decreases idx_to - i,
        {
            let b = match self.get(i) {
                Ok(b) => b,
                Err(e) => {
                    return Err(e);
                },
            };
            entries.push((i, b));
            i = i + 1;
        }
        Ok(entries)
    }

    /// Reads the whole table as `(index, bytes)` pairs.
    pub fn iter(&self) -> (r: Vec<(usize, Vec<u8>)>)
        requires
            self.wf(),
        ensures
            r@.len() == self.spec_size(),
            forall|i: int|
                0 <= i < r@.len() ==> (#[trigger] r@[i]).0 == i && r@[i].1@ == self.spec_slot(i),
    {
        let size = self.size();
        match self.iter_between(0, size) {
            Ok(entries) => entries,
            Err(_) => {
                proof {
                    assert(false);
                }
                Vec::new()
            },
        }
    }
}

} // verus!
