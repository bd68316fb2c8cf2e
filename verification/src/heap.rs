//! The blob heap: an append-only byte image of variable-length blocks.  Each
//! block starts with a 16-byte header — two 8-byte little-endian words
//! holding the payload length and the allocated buffer length — and is padded
//! with zeros up to its buffer length, the smallest power of two that holds
//! header plus payload.  A block is addressed by its starting offset (its
//! handle).  Updates rewrite a block in place while the new payload still
//! fits its buffer, and otherwise append a fresh block at the end; old space
//! is never reclaimed.

use vstd::bytes::lemma_auto_spec_u64_to_from_le_bytes;
use vstd::bytes::spec_u64_from_le_bytes;
use vstd::bytes::spec_u64_to_le_bytes;
use vstd::prelude::*;

use crate::StoreError;

verus! {

/// The width of one header word in bytes.
pub const WORD_SIZE: usize = 8;

/// The width of a whole block header: payload length then buffer length.
pub const HEADER_SIZE: usize = 16;

/// The smallest power of two that is at least `n`, reached by doubling `p`.
pub open spec fn spec_pow2_at_least(p: int, n: int) -> int
    decreases (if p >= n { 0int } else { n - p })
        when p >= 1
{
    if p >= n {
        p
    } else {
        spec_pow2_at_least(2 * p, n)
    }
}

/// The buffer length allocated for a payload of `block_len` bytes: the
/// smallest power of two that holds the header and the payload.
pub open spec fn spec_buffer_len(block_len: int) -> int {
    spec_pow2_at_least(1, HEADER_SIZE as int + block_len)
}

/// The little-endian word stored at byte offset `pos` of image `d`.
pub open spec fn spec_word_at(d: Seq<u8>, pos: int) -> int {
    spec_u64_from_le_bytes(d.subrange(pos, pos + WORD_SIZE as int)) as int
}

/// A block's full on-disk bytes: header, payload, and zero padding up to
/// `buffer_len`.
pub open spec fn spec_block_encoding(block: Seq<u8>, buffer_len: int) -> Seq<u8> {
    spec_u64_to_le_bytes(block.len() as u64) + spec_u64_to_le_bytes(buffer_len as u64) + block
        + Seq::new((buffer_len - HEADER_SIZE - block.len()) as nat, |i: int| 0u8)
}

/// In-memory image of one heap file.
pub struct Heap {
    data: Vec<u8>,
}

/// Appending a block's encoding to an image leaves every prior byte in
/// place and yields a readable block at the old end.
proof fn lemma_appended_block(d1: Seq<u8>, block: Seq<u8>, buffer_len: int)
    requires
        HEADER_SIZE + block.len() <= buffer_len,
        buffer_len <= u64::MAX,
    ensures
        (d1 + spec_block_encoding(block, buffer_len)).len() == d1.len() + buffer_len,
        spec_word_at(d1 + spec_block_encoding(block, buffer_len), d1.len() as int)
            == block.len(),
        spec_word_at(d1 + spec_block_encoding(block, buffer_len), d1.len() + WORD_SIZE)
            == buffer_len,
        (d1 + spec_block_encoding(block, buffer_len)).subrange(
            d1.len() + HEADER_SIZE,
            d1.len() + HEADER_SIZE + block.len(),
        ) == block,
        forall|k: int|
            0 <= k < d1.len() ==> (d1 + spec_block_encoding(block, buffer_len))[k] == d1[k],
{
    lemma_auto_spec_u64_to_from_le_bytes();
    let e = spec_block_encoding(block, buffer_len);
    let d2 = d1 + e;
    assert(e.len() == buffer_len);
    assert(d2.subrange(d1.len() as int, d1.len() + WORD_SIZE) =~= spec_u64_to_le_bytes(
        block.len() as u64,
    ));
    assert(d2.subrange(d1.len() + WORD_SIZE, d1.len() + HEADER_SIZE) =~= spec_u64_to_le_bytes(
        buffer_len as u64,
    ));
    assert(d2.subrange(d1.len() + HEADER_SIZE, d1.len() + HEADER_SIZE + block.len()) =~= block);
}

/// Bytes left untouched below a boundary keep every header word and payload
/// that lies entirely below that boundary.
proof fn lemma_block_preserved(d1: Seq<u8>, d2: Seq<u8>, pos: int)
    requires
        d1.len() <= d2.len(),
        forall|k: int| 0 <= k < d1.len() ==> d2[k] == d1[k],
        0 <= pos,
        pos + HEADER_SIZE <= d1.len(),
    ensures
        spec_word_at(d2, pos) == spec_word_at(d1, pos),
        spec_word_at(d2, pos + WORD_SIZE) == spec_word_at(d1, pos + WORD_SIZE),
        pos + HEADER_SIZE + spec_word_at(d1, pos) <= d1.len() ==> d2.subrange(
            pos + HEADER_SIZE,
            pos + HEADER_SIZE + spec_word_at(d1, pos),
        ) == d1.subrange(pos + HEADER_SIZE, pos + HEADER_SIZE + spec_word_at(d1, pos)),
{
    assert(d2.subrange(pos, pos + WORD_SIZE) =~= d1.subrange(pos, pos + WORD_SIZE));
    assert(d2.subrange(pos + WORD_SIZE, pos + WORD_SIZE + WORD_SIZE) =~= d1.subrange(
        pos + WORD_SIZE,
        pos + WORD_SIZE + WORD_SIZE,
    ));
    if pos + HEADER_SIZE + spec_word_at(d1, pos) <= d1.len() {
        assert(d2.subrange(pos + HEADER_SIZE, pos + HEADER_SIZE + spec_word_at(d1, pos))
            =~= d1.subrange(pos + HEADER_SIZE, pos + HEADER_SIZE + spec_word_at(d1, pos)));
    }
}

/// Reads are idempotent: two `get`s of the same handle with no write between
/// them return the same payload, both being pinned to `spec_block_at`.
pub proof fn lemma_get_idempotent(h: &Heap, pos: int, r1: Seq<u8>, r2: Seq<u8>)
    requires
        r1 == h.spec_block_at(pos),
        r2 == h.spec_block_at(pos),
    ensures
        r1 == r2,
{
}

impl Heap {
    /// The full byte image of the heap file.
    pub closed spec fn spec_data(&self) -> Seq<u8> {
        self.data@
    }

    /// The heap's size in bytes.
    pub open spec fn spec_size(&self) -> int {
        self.spec_data().len() as int
    }

    /// The payload length recorded in the header at `pos`.
    pub open spec fn spec_block_len_at(&self, pos: int) -> int {
        spec_word_at(self.spec_data(), pos)
    }

    /// The buffer length recorded in the header at `pos`.
    pub open spec fn spec_buffer_len_at(&self, pos: int) -> int {
        spec_word_at(self.spec_data(), pos + WORD_SIZE)
    }

    /// The payload bytes of the block at `pos`.
    pub open spec fn spec_block_at(&self, pos: int) -> Seq<u8> {
        self.spec_data().subrange(
            pos + HEADER_SIZE,
            pos + HEADER_SIZE + self.spec_block_len_at(pos),
        )
    }

    /// Whether `pos` is the handle of a stored block: its header lies within
    /// the image, its header and payload fit its recorded buffer, and the
    /// whole buffer lies within the image.
    pub open spec fn valid_handle(&self, pos: int) -> bool {
        &&& 0 <= pos
        &&& pos + HEADER_SIZE <= self.spec_size()
        &&& HEADER_SIZE + self.spec_block_len_at(pos) <= self.spec_buffer_len_at(pos)
        &&& pos + self.spec_buffer_len_at(pos) <= self.spec_size()
    }

    /// Creates an empty heap.
    pub fn new() -> (h: Heap)
        ensures
            h.spec_size() == 0,
            h.spec_data() == Seq::<u8>::empty(),
    {
        Heap { data: Vec::new() }
    }

    /// Adopts an existing byte image (for example one read from disk).
    pub fn open(data: Vec<u8>) -> (h: Heap)
        ensures
            h.spec_data() == data@,
    {
        Heap { data }
    }

    /// The byte image, for persisting the heap.
    pub fn data(&self) -> (r: &Vec<u8>)
        ensures
            r@ == self.spec_data(),
    {
        &self.data
    }

    /// The heap's size in bytes.
    pub fn size(&self) -> (r: usize)
        ensures
            r as int == self.spec_size(),
    {
        self.data.len()
    }

    /// Whether the heap holds no bytes.
    pub fn empty(&self) -> (r: bool)
        ensures
            r == (self.spec_size() == 0),
    {
        self.data.len() == 0
    }

    /// Appends a block holding `block` at the end of the heap and returns its
    /// handle, which equals the heap's size before the call.
    pub fn append(&mut self, block: &[u8]) -> (r: Result<usize, StoreError>)
        requires
            HEADER_SIZE + block@.len() <= usize::MAX / 2 + 1,
        ensures
            final(self).spec_data() == old(self).spec_data() + spec_block_encoding(
                block@,
                spec_buffer_len(block@.len() as int),
            ),
            final(self).spec_size() == old(self).spec_size() + spec_buffer_len(
                block@.len() as int,
            ),
            r matches Ok(h) && h as int == old(self).spec_size(),
            final(self).valid_handle(old(self).spec_size()),
            final(self).spec_block_at(old(self).spec_size()) == block@,
            final(self).spec_block_len_at(old(self).spec_size()) == block@.len(),
            final(self).spec_buffer_len_at(old(self).spec_size()) == spec_buffer_len(
                block@.len() as int,
            ),
            forall|p: int|
                old(self).valid_handle(p) ==> final(self).valid_handle(p)
                    && final(self).spec_block_at(p) == old(self).spec_block_at(p)
                    && final(self).spec_block_len_at(p) == old(self).spec_block_len_at(p)
                    && final(self).spec_buffer_len_at(p) == old(self).spec_buffer_len_at(p),
    {
        let pos = self.data.len();
        let buffer_len = Self::_calc_buffer_len(block.len());
        self._write_block(block, pos, buffer_len);
        proof {
            lemma_appended_block(old(self).spec_data(), block@, buffer_len as int);
            assert forall|p: int| old(self).valid_handle(p) implies self.valid_handle(p)
                && self.spec_block_at(p) == old(self).spec_block_at(p)
                && self.spec_block_len_at(p) == old(self).spec_block_len_at(p)
                && self.spec_buffer_len_at(p) == old(self).spec_buffer_len_at(p) by {
                lemma_block_preserved(old(self).spec_data(), self.spec_data(), p);
            }
        }
        Ok(pos)
    }

    /// Reads the payload of the block at `pos`; fails exactly when the header
    /// or the payload would reach past the end of the heap.
    pub fn get(&self, pos: usize) -> (r: Result<Vec<u8>, StoreError>)
        ensures
            match r {
                Ok(b) => {
                    &&& pos + HEADER_SIZE <= self.spec_size()
                    &&& pos + HEADER_SIZE + self.spec_block_len_at(pos as int)
                        <= self.spec_size()
                    &&& b@ == self.spec_block_at(pos as int)
                },
                Err(e) => {
                    &&& e == StoreError::OutOfBounds
                    &&& (pos + HEADER_SIZE > self.spec_size() || pos + HEADER_SIZE
                        + self.spec_block_len_at(pos as int) > self.spec_size())
                },
            },
    {
        let n = self.data.len();
        if n < HEADER_SIZE || pos > n - HEADER_SIZE {
            return Err(StoreError::OutOfBounds);
        }
        let head = self._parse_head(pos);
        let avail = n - (pos + HEADER_SIZE);
        if head.0 > avail as u64 {
            return Err(StoreError::OutOfBounds);
        }
        let block_len = head.0 as usize;
        let block = vstd::slice::slice_to_vec(
            vstd::slice::slice_subrange(
                self.data.as_slice(),
                pos + HEADER_SIZE,
                pos + HEADER_SIZE + block_len,
            ),
        );
        Ok(block)
    }

    /// Replaces the payload of the block at `pos`.  While the new payload
    /// still fits the block's buffer the block is rewritten in place, keeping
    /// its buffer length and its handle; otherwise a fresh block is appended
    /// at the end of the heap and its new handle is returned, the old buffer
    /// becoming unreachable.
    pub fn update(&mut self, block: &[u8], pos: usize) -> (r: Result<usize, StoreError>)
        requires
            old(self).valid_handle(pos as int),
            HEADER_SIZE + block@.len() <= usize::MAX / 2 + 1,
        ensures
            ({
                let nb = spec_buffer_len(block@.len() as int);
                let ob = old(self).spec_buffer_len_at(pos as int);
                if nb <= ob {
                    &&& r matches Ok(h) && h == pos
                    &&& final(self).spec_size() == old(self).spec_size()
                    &&& final(self).valid_handle(pos as int)
                    &&& final(self).spec_block_at(pos as int) == block@
                    &&& final(self).spec_block_len_at(pos as int) == block@.len()
                    &&& final(self).spec_buffer_len_at(pos as int) == ob
                    &&& forall|k: int|
                        0 <= k < old(self).spec_size() && !(pos <= k < pos + ob)
                            ==> final(self).spec_data()[k] == old(self).spec_data()[k]
                } else {
                    &&& r matches Ok(h) && h as int == old(self).spec_size()
                    &&& final(self).spec_data() == old(self).spec_data() + spec_block_encoding(
                        block@,
                        nb,
                    )
                    &&& final(self).spec_size() == old(self).spec_size() + nb
                    &&& final(self).valid_handle(old(self).spec_size())
                    &&& final(self).spec_block_at(old(self).spec_size()) == block@
                    &&& final(self).spec_block_len_at(old(self).spec_size()) == block@.len()
                    &&& final(self).spec_buffer_len_at(old(self).spec_size()) == nb
                }
            }),
    {
        proof {
            vstd::std_specs::vec::axiom_spec_len(&self.data);
        }
        let head = self._parse_head(pos);
        let buffer_len_old = head.1;
        let buffer_len_new = Self::_calc_buffer_len(block.len());

        if (buffer_len_new as u64) > buffer_len_old {
            let pos_end = self.data.len();
            self._write_block(block, pos_end, buffer_len_new);
            proof {
                lemma_appended_block(old(self).spec_data(), block@, buffer_len_new as int);
            }
            Ok(pos_end)
        } else {
            let ob = buffer_len_old as usize;
            self._write_block(block, pos, ob);
            proof {
                lemma_auto_spec_u64_to_from_le_bytes();
                let d2 = self.spec_data();
                let e = spec_block_encoding(block@, ob as int);
                assert(d2.subrange(pos as int, pos + ob) == e);
                assert(d2.subrange(pos as int, pos + WORD_SIZE) =~= e.subrange(
                    0,
                    WORD_SIZE as int,
                ));
                assert(e.subrange(0, WORD_SIZE as int) =~= spec_u64_to_le_bytes(
                    block@.len() as u64,
                ));
                assert(d2.subrange(pos + WORD_SIZE, pos + HEADER_SIZE) =~= e.subrange(
                    WORD_SIZE as int,
                    HEADER_SIZE as int,
                ));
                assert(e.subrange(WORD_SIZE as int, HEADER_SIZE as int) =~= spec_u64_to_le_bytes(
                    ob as u64,
                ));
                assert(d2.subrange(pos + HEADER_SIZE, pos + HEADER_SIZE + block@.len())
                    =~= e.subrange(HEADER_SIZE as int, HEADER_SIZE + block@.len()));
                assert(e.subrange(HEADER_SIZE as int, HEADER_SIZE + block@.len()) =~= block@);
            }
            Ok(pos)
        }
    }

    /// Reads the two header words of the block at `pos`: payload length, then
    /// buffer length.
    fn _parse_head(&self, pos: usize) -> (r: (u64, u64))
        requires
            pos + HEADER_SIZE <= self.spec_data().len(),
        ensures
            r.0 as int == self.spec_block_len_at(pos as int),
            r.1 as int == self.spec_buffer_len_at(pos as int),
    {
        proof {
            vstd::std_specs::vec::axiom_spec_len(&self.data);
        }
        let w0 = vstd::bytes::u64_from_le_bytes(
            vstd::slice::slice_subrange(self.data.as_slice(), pos, pos + WORD_SIZE),
        );
        let w1 = vstd::bytes::u64_from_le_bytes(
            vstd::slice::slice_subrange(self.data.as_slice(), pos + WORD_SIZE, pos + HEADER_SIZE),
        );
        (w0, w1)
    }

    /// Writes one block's encoding — header, payload, zero padding — either
    /// over existing bytes or, when `pos` is the image's end, as an
    /// extension.
    fn _write_block(&mut self, block: &[u8], pos: usize, buffer_len: usize)
        requires
            HEADER_SIZE + block@.len() <= buffer_len,
            pos + buffer_len <= old(self).spec_data().len()
                || pos as int == old(self).spec_data().len(),
        ensures
            if pos as int == old(self).spec_data().len() {
                final(self).spec_data() == old(self).spec_data() + spec_block_encoding(
                    block@,
                    buffer_len as int,
                )
            } else {
                &&& final(self).spec_data().len() == old(self).spec_data().len()
                &&& forall|k: int|
                    0 <= k < old(self).spec_data().len() && !(pos <= k < pos + buffer_len)
                        ==> final(self).spec_data()[k] == old(self).spec_data()[k]
                &&& final(self).spec_data().subrange(pos as int, pos + buffer_len)
                    == spec_block_encoding(block@, buffer_len as int)
            },
    {
        let buf = Self::_encode_block(block, buffer_len);
        if pos == self.data.len() {
            let mut j: usize = 0;
            while j < buf.len()
                invariant
                    pos as int == old(self).spec_data().len(),
                    j <= buf@.len(),
                    self.spec_data() == old(self).spec_data() + buf@.subrange(0, j as int),
                decreases buf@.len() - j,
            {
                let b = buf[j];
                self.data.push(b);
                proof {
                    assert(self.spec_data() =~= old(self).spec_data() + buf@.subrange(
                        0,
                        j as int + 1,
                    ));
                }
                j = j + 1;
            }
            proof {
                assert(buf@.subrange(0, buf@.len() as int) =~= buf@);
            }
        } else {
            proof {
                vstd::std_specs::vec::axiom_spec_len(&self.data);
            }
            let mut j: usize = 0;
            while j < buf.len()
                invariant
                    pos + buf@.len() <= old(self).spec_data().len(),
                    old(self).spec_data().len() <= usize::MAX,
                    buf@.len() == buffer_len,
                    j <= buf@.len(),
                    self.spec_data().len() == old(self).spec_data().len(),
                    forall|k: int|
                        0 <= k < self.spec_data().len() && !(pos <= k < pos + j) ==> self.spec_data()[k]
                            == old(self).spec_data()[k],
                    forall|k: int| 0 <= k < j ==> self.spec_data()[pos + k] == buf@[k],
                decreases buf@.len() - j,
            {
                let b = buf[j];
                self.data[pos + j] = b;
                j = j + 1;
            }
            proof {
                assert(self.spec_data().subrange(pos as int, pos + buffer_len) =~= buf@);
            }
        }
    }

    /// Builds one block's full encoding: payload length word, buffer length
    /// word, payload, zero padding.
    fn _encode_block(block: &[u8], buffer_len: usize) -> (r: Vec<u8>)
        requires
            HEADER_SIZE + block@.len() <= buffer_len,
        ensures
            r@ == spec_block_encoding(block@, buffer_len as int),
            r@.len() == buffer_len,
    {
        proof {
            lemma_auto_spec_u64_to_from_le_bytes();
        }
        let mut buf = vstd::bytes::u64_to_le_bytes(block.len() as u64);
        let mut word2 = vstd::bytes::u64_to_le_bytes(buffer_len as u64);
        buf.append(&mut word2);
        let ghost head = spec_u64_to_le_bytes(block@.len() as u64) + spec_u64_to_le_bytes(
            buffer_len as u64,
        );
        let mut j: usize = 0;
        while j < block.len()
            invariant
                HEADER_SIZE + block@.len() <= buffer_len,
                head.len() == HEADER_SIZE,
                j <= block@.len(),
                buf@ == head + block@.subrange(0, j as int),
            decreases block@.len() - j,
        {
            let b = *vstd::slice::slice_index_get(block, j);
            buf.push(b);
            proof {
                assert(buf@ =~= head + block@.subrange(0, j as int + 1));
            }
            j = j + 1;
        }
        proof {
            assert(buf@ =~= head + block@ + Seq::new(0nat, |i: int| 0u8));
        }
        while buf.len() < buffer_len
            invariant
                HEADER_SIZE + block@.len() <= buffer_len,
                head.len() == HEADER_SIZE,
                HEADER_SIZE + block@.len() <= buf@.len() <= buffer_len,
                buf@ == head + block@ + Seq::new(
                    (buf@.len() - HEADER_SIZE - block@.len()) as nat,
                    |i: int| 0u8,
                ),
            decreases buffer_len - buf@.len(),
        {
            buf.push(0u8);
            proof {
                assert(buf@ =~= head + block@ + Seq::new(
                    (buf@.len() - HEADER_SIZE - block@.len()) as nat,
                    |i: int| 0u8,
                ));
            }
        }
        buf
    }

    /// The buffer length for a payload of `block_len` bytes: the smallest
    /// power of two holding header plus payload.
    fn _calc_buffer_len(block_len: usize) -> (r: usize)
        requires
            HEADER_SIZE + block_len <= usize::MAX / 2 + 1,
        ensures
            r as int == spec_buffer_len(block_len as int),
            HEADER_SIZE + block_len <= r,
            r <= usize::MAX,
    {
        let n: usize = HEADER_SIZE + block_len;
        let mut p: usize = 1;
        while p < n
            invariant
                1 <= p,
                n == HEADER_SIZE + block_len,
                n <= usize::MAX / 2 + 1,
                spec_pow2_at_least(p as int, n as int) == spec_buffer_len(block_len as int),
            decreases (if p >= n { 0int } else { n - p }),
        {
            p = 2 * p;
        }
        p
    }
}

} // verus!
