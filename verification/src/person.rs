//! A small sample record: one byte of age and a four-byte name.  It shows
//! how a record type satisfies the codec contract, and gives the crate's
//! tests a concrete record to store.

use vstd::prelude::*;

use crate::table_trait::TableTrait;

verus! {

broadcast use vstd::array::group_array_axioms;

/// A fixed-width record of five bytes: the age followed by the name.
#[derive(Clone, Copy, Debug, PartialEq, Eq)]
pub struct Person {
    pub age: u8,
    pub name: [u8; 4],
}

impl TableTrait for Person {
    open spec fn spec_block_size() -> int {
        5
    }

    open spec fn spec_encode(self) -> Seq<u8> {
        seq![self.age, self.name@[0], self.name@[1], self.name@[2], self.name@[3]]
    }

    open spec fn spec_decode(s: Seq<u8>) -> Self {
        Person { age: s[0], name: (choose|a: [u8; 4]| a@ =~= s.subrange(1, 5)) }
    }

    proof fn lemma_block_size() {
    }

    proof fn lemma_codec(self) {
        let s = self.spec_encode();
        assert(s.subrange(1, 5) =~= self.name@);
        let a = choose|a: [u8; 4]| a@ =~= s.subrange(1, 5);
        assert(self.name@ =~= s.subrange(1, 5));
        assert(a@ =~= s.subrange(1, 5));
        assert(a =~= self.name);
    }

    fn block_size() -> (r: usize) {
        5
    }

    fn as_bytes(&self) -> (r: Vec<u8>) {
        let mut bytes: Vec<u8> = Vec::new();
        bytes.push(self.age);
        bytes.push(self.name[0]);
        bytes.push(self.name[1]);
        bytes.push(self.name[2]);
        bytes.push(self.name[3]);
        proof {
            assert(bytes@ =~= self.spec_encode());
        }
        bytes
    }

    fn from_bytes(block: &[u8]) -> (r: Self) {
        let name: [u8; 4] = [
            *vstd::slice::slice_index_get(block, 1),
            *vstd::slice::slice_index_get(block, 2),
            *vstd::slice::slice_index_get(block, 3),
            *vstd::slice::slice_index_get(block, 4),
        ];
        let rec = Person { age: *vstd::slice::slice_index_get(block, 0), name };
        proof {
            assert(name@ =~= block@.subrange(1, 5));
            let a = choose|a: [u8; 4]| a@ =~= block@.subrange(1, 5);
            assert(a@ =~= block@.subrange(1, 5));
            assert(a =~= name);
        }
        rec
    }
}

} // verus!
