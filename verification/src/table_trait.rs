//! The record codec and ID layer: a contract for fixed-width record types,
//! plus operations that bridge typed records and a table's byte slots while
//! translating between 0-based slot indices and 1-based record IDs.

use vstd::prelude::*;

use crate::table::Table;
use crate::StoreError;

verus! {

/// Record ID round trip: `insert` returns ID = prior table size + 1 (its
/// contract) and stores the encoded record in slot ID - 1; a `get` or an
/// overwritten `update` at that ID then decodes the very record back, by the
/// codec obligation.
pub proof fn lemma_record_round_trip<T: TableTrait>(t: &Table, rec: T, id: int)
    requires
        t.spec_block_size() == T::spec_block_size(),
        1 <= id <= t.spec_size(),
        t.spec_slot(id - 1) == rec.spec_encode(),
    ensures
        T::spec_decode(t.spec_slot(id - 1)) == rec,
{
    rec.lemma_codec();
}

/// A fixed-width record that can live in a [`Table`].
///
/// An implementor supplies a constant byte width and a byte-exact
/// encode/decode pair; `lemma_codec` obliges every implementor to prove that
/// decoding an encoding gives the record back.  Record IDs are 1-based: ID
/// `n` names slot `n - 1`, and 0 is reserved as a null link.
pub trait TableTrait: Sized {
    /// The record's constant byte width.
    spec fn spec_block_size() -> int;

    /// The record's byte encoding.
    spec fn spec_encode(self) -> Seq<u8>;

    /// The record read back from a byte encoding.
    spec fn spec_decode(s: Seq<u8>) -> Self;

    /// The byte width is positive.
    proof fn lemma_block_size()
        ensures
            Self::spec_block_size() > 0,
    ;

    /// The codec is byte-exact: every record encodes to exactly
    /// `spec_block_size` bytes, and decoding that encoding restores the
    /// record.
    proof fn lemma_codec(self)
        ensures
            self.spec_encode().len() == Self::spec_block_size(),
            Self::spec_decode(self.spec_encode()) == self,
    ;

    /// The record's byte width, as executable code.
    fn block_size() -> (r: usize)
        ensures
            r as int == Self::spec_block_size(),
    ;

    /// Encodes the record.
    fn as_bytes(&self) -> (r: Vec<u8>)
        ensures
            r@ == self.spec_encode(),
    ;

    /// Decodes a record from exactly one slot's bytes.
    fn from_bytes(block: &[u8]) -> (r: Self)
        requires
            block@.len() == Self::spec_block_size(),
        ensures
            r == Self::spec_decode(block@),
    ;

    /// Reads and decodes the record with ID `id`; fails exactly when the ID
    /// names no slot.
    fn get(table: &Table, id: usize) -> (r: Result<Self, StoreError>)
        requires
            table.wf(),
            table.spec_block_size() == Self::spec_block_size(),
            id >= 1,
        ensures
            match r {
                Ok(rec) => id <= table.spec_size() && rec == Self::spec_decode(
                    table.spec_slot(id - 1),
                ),
                Err(e) => id > table.spec_size() && e == StoreError::OutOfBounds,
            },
    {
        let block = match table.get(id - 1) {
            Ok(b) => b,
            Err(e) => {
                return Err(e);
            },
        };
        proof {
            table.lemma_slot_len(id - 1);
        }
        Ok(Self::from_bytes(block.as_slice()))
    }

    /// Reads and decodes the records with IDs `id_from` (inclusive) to
    /// `id_to` (exclusive); fails exactly when the range reaches past the end
    /// of the table.
    fn get_many(table: &Table, id_from: usize, id_to: usize) -> (r: Result<
        Vec<Self>,
        StoreError,
    >)
        requires
            table.wf(),
            table.spec_block_size() == Self::spec_block_size(),
            1 <= id_from <= id_to,
        ensures
            match r {
                Ok(recs) => {
                    &&& id_to - 1 <= table.spec_size()
                    &&& recs@.len() == id_to - id_from
                    &&& forall|i: int|
                        0 <= i < recs@.len() ==> #[trigger] recs@[i] == Self::spec_decode(
                            table.spec_slot(id_from - 1 + i),
                        )
                },
                Err(e) => id_to - 1 > table.spec_size() && e == StoreError::OutOfBounds,
            },
    {
        let blocks = match table.get_many(id_from - 1, id_to - 1) {
            Ok(bs) => bs,
            Err(e) => {
                return Err(e);
            },
        };
        let mut recs: Vec<Self> = Vec::new();
        let mut i: usize = 0;
        while i < blocks.len()
            invariant
                table.wf(),
                table.spec_block_size() == Self::spec_block_size(),
                1 <= id_from <= id_to,
                id_to - 1 <= table.spec_size(),
                blocks@.len() == id_to - id_from,
                forall|k: int|
                    0 <= k < blocks@.len() ==> (#[trigger] blocks@[k])@ == table.spec_slot(
                        id_from - 1 + k,
                    ),
                i <= blocks@.len(),
                recs@.len() == i,
                forall|k: int|
                    0 <= k < recs@.len() ==> #[trigger] recs@[k] == Self::spec_decode(
                        table.spec_slot(id_from - 1 + k),
                    ),
            decreases blocks@.len() - i,
        {
            proof {
                table.lemma_slot_len(id_from - 1 + i);
            }
            let rec = Self::from_bytes(blocks[i].as_slice());
            recs.push(rec);
            i = i + 1;
        }
        Ok(recs)
    }

    /// Encodes the record and appends it to the table, returning its new
    /// 1-based ID, which equals the table's size before the call plus one.
    fn insert(&self, table: &mut Table) -> (r: Result<usize, StoreError>)
        requires
            old(table).wf(),
            old(table).spec_block_size() == Self::spec_block_size(),
            old(table).spec_size() < usize::MAX,
        ensures
            final(table).wf(),
            final(table).spec_block_size() == old(table).spec_block_size(),
            final(table).spec_size() == old(table).spec_size() + 1,
            forall|i: int|
                0 <= i < old(table).spec_size() ==> final(table).spec_slot(i)
                    == old(table).spec_slot(i),
            final(table).spec_slot(old(table).spec_size()) == self.spec_encode(),
            final(table).spec_data() == old(table).spec_data() + self.spec_encode(),
            r matches Ok(id) && id as int == old(table).spec_size() + 1,
    {
        let bytes = self.as_bytes();
        proof {
            self.lemma_codec();
        }
        let idx = match table.insert(bytes.as_slice()) {
            Ok(i) => i,
            Err(e) => {
                return Err(e);
            },
        };
        Ok(idx + 1)
    }

    /// Encodes the record and overwrites the slot with ID `id`; fails exactly
    /// when the ID names no slot, leaving the table unchanged.
    fn update(&self, table: &mut Table, id: usize) -> (r: Result<(), StoreError>)
        requires
            old(table).wf(),
            old(table).spec_block_size() == Self::spec_block_size(),
            id >= 1,
        ensures
            final(table).wf(),
            final(table).spec_block_size() == old(table).spec_block_size(),
            final(table).spec_size() == old(table).spec_size(),
            match r {
                Ok(()) => {
                    &&& id <= old(table).spec_size()
                    &&& final(table).spec_slot(id - 1) == self.spec_encode()
                    &&& forall|i: int|
                        0 <= i < old(table).spec_size() && i != id - 1
                            ==> final(table).spec_slot(i) == old(table).spec_slot(i)
                },
                Err(e) => {
                    &&& id > old(table).spec_size()
                    &&& e == StoreError::OutOfBounds
                    &&& *final(table) == *old(table)
                },
            },
    {
        let bytes = self.as_bytes();
        proof {
            self.lemma_codec();
        }
        match table.update(bytes.as_slice(), id - 1) {
            Ok(()) => Ok(()),
            Err(e) => Err(e),
        }
    }

    /// Reads and decodes the whole table as `(id, record)` pairs, in ID
    /// order.
    fn all(table: &Table) -> (r: Vec<(usize, Self)>)
        requires
            table.wf(),
            table.spec_block_size() == Self::spec_block_size(),
        ensures
            r@.len() == table.spec_size(),
            forall|i: int|
                0 <= i < r@.len() ==> (#[trigger] r@[i]).0 == i + 1 && r@[i].1
                    == Self::spec_decode(table.spec_slot(i)),
    {
        let entries = table.iter();
        let mut recs: Vec<(usize, Self)> = Vec::new();
        let mut i: usize = 0;
        proof {
            table.lemma_size_le_len();
        }
        while i < entries.len()
            invariant
                table.wf(),
                table.spec_block_size() == Self::spec_block_size(),
                entries@.len() == table.spec_size(),
                table.spec_size() <= usize::MAX,
                forall|k: int|
                    0 <= k < entries@.len() ==> (#[trigger] entries@[k]).0 == k
                        && entries@[k].1@ == table.spec_slot(k),
                i <= entries@.len(),
                recs@.len() == i,
                forall|k: int|
                    0 <= k < recs@.len() ==> (#[trigger] recs@[k]).0 == k + 1 && recs@[k].1
                        == Self::spec_decode(table.spec_slot(k)),
            decreases entries@.len() - i,
        {
            proof {
                table.lemma_slot_len(i as int);
            }
            let rec = Self::from_bytes(entries[i].1.as_slice());
            let id = entries[i].0 + 1;
            recs.push((id, rec));
            i = i + 1;
        }
        recs
    }
}

} // verus!
