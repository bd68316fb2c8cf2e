//! The persisted binary-search-tree index.  Nodes are ordinary fixed-width
//! records in a [`Table`]; child links are record IDs, with 0 as the null
//! link, and the root is always record ID 1.  Two key strategies share the
//! same tree logic: the ordered variant stores the indexed value itself as
//! the key (`add_key`, `search_one_key`, `search_many_key`), and the hashed
//! variant stores a deterministic 64-bit hash of the indexed value's bytes
//! (`add`, `search_one`, `search_many`).  Keys that compare strictly smaller
//! go left, equal or greater keys go right, so duplicates chain down the
//! right spine; nodes are never rebalanced or removed.

use std::collections::hash_map::DefaultHasher;
use std::hash::Hasher;

use vstd::bytes::lemma_auto_spec_u64_to_from_le_bytes;
use vstd::bytes::spec_u64_from_le_bytes;
use vstd::bytes::spec_u64_to_le_bytes;
use vstd::prelude::*;
use vstd::std_specs::hash::DefaultHasherAdditionalSpecFns;

use crate::table::Table;
use crate::table_trait::TableTrait;
use crate::StoreError;

verus! {

/// One node of the index tree: two child links (record IDs, 0 meaning no
/// child) and the node's key.
#[derive(Clone, Copy, Debug, PartialEq, Eq, Structural)]
pub struct Index {
    pub left: u64,
    pub right: u64,
    pub hash: u64,
}

impl TableTrait for Index {
    open spec fn spec_block_size() -> int {
        24
    }

    open spec fn spec_encode(self) -> Seq<u8> {
        spec_u64_to_le_bytes(self.left) + spec_u64_to_le_bytes(self.right) + spec_u64_to_le_bytes(
            self.hash,
        )
    }

    open spec fn spec_decode(s: Seq<u8>) -> Self {
        Index {
            left: spec_u64_from_le_bytes(s.subrange(0, 8)),
            right: spec_u64_from_le_bytes(s.subrange(8, 16)),
            hash: spec_u64_from_le_bytes(s.subrange(16, 24)),
        }
    }

    proof fn lemma_block_size() {
    }

    proof fn lemma_codec(self) {
        lemma_auto_spec_u64_to_from_le_bytes();
        let e = self.spec_encode();
        assert(e.subrange(0, 8) =~= spec_u64_to_le_bytes(self.left));
        assert(e.subrange(8, 16) =~= spec_u64_to_le_bytes(self.right));
        assert(e.subrange(16, 24) =~= spec_u64_to_le_bytes(self.hash));
    }

    fn block_size() -> (r: usize) {
        24
    }

    fn as_bytes(&self) -> (r: Vec<u8>) {
        let mut bytes = vstd::bytes::u64_to_le_bytes(self.left);
        let mut mid = vstd::bytes::u64_to_le_bytes(self.right);
        let mut tail = vstd::bytes::u64_to_le_bytes(self.hash);
        bytes.append(&mut mid);
        bytes.append(&mut tail);
        bytes
    }

    fn from_bytes(block: &[u8]) -> (r: Self) {
        let left = vstd::bytes::u64_from_le_bytes(vstd::slice::slice_subrange(block, 0, 8));
        let right = vstd::bytes::u64_from_le_bytes(vstd::slice::slice_subrange(block, 8, 16));
        let hash = vstd::bytes::u64_from_le_bytes(vstd::slice::slice_subrange(block, 16, 24));
        Index { left, right, hash }
    }
}

/// The node stored under record ID `id`.
pub open spec fn spec_node(t: &Table, id: int) -> Index {
    <Index as TableTrait>::spec_decode(t.spec_slot(id - 1))
}

/// The node under `id` links only forward: each child is 0 or a record ID
/// strictly greater than `id` and no greater than the table's size.
pub open spec fn wf_node(t: &Table, id: int) -> bool {
    let n = spec_node(t, id);
    &&& (n.left == 0 || id < n.left as int <= t.spec_size())
    &&& (n.right == 0 || id < n.right as int <= t.spec_size())
}

/// A well-formed index table: a well-formed table of node-sized slots whose
/// every node links only forward.  Forward links make every walk terminate.
pub open spec fn wf_index(t: &Table) -> bool {
    &&& t.wf()
    &&& t.spec_block_size() == <Index as TableTrait>::spec_block_size()
    &&& forall|id: int| 1 <= id <= t.spec_size() ==> #[trigger] wf_node(t, id)
}

/// The record IDs yielded by a search for `key` starting at node `id`:
/// descend left while `key` is strictly smaller, otherwise yield the node if
/// its key matches and continue right.
pub open spec fn spec_search_from(t: &Table, key: u64, id: int) -> Seq<usize>
    decreases t.spec_size() - id
        when wf_index(t) && 1 <= id <= t.spec_size()
        via spec_search_from_decreases
{
    let n = spec_node(t, id);
    if key < n.hash {
        if n.left == 0 {
            Seq::empty()
        } else {
            spec_search_from(t, key, n.left as int)
        }
    } else {
        let tail = if n.right == 0 {
            Seq::empty()
        } else {
            spec_search_from(t, key, n.right as int)
        };
        if key == n.hash {
            seq![id as usize] + tail
        } else {
            tail
        }
    }
}

#[via_fn]
proof fn spec_search_from_decreases(t: &Table, key: u64, id: int) {
    assert(wf_node(t, id));
}

/// The record IDs matching `key` anywhere in the tree, in traversal order
/// from the root.
pub open spec fn spec_search(t: &Table, key: u64) -> Seq<usize> {
    if t.spec_size() == 0 {
        Seq::empty()
    } else {
        spec_search_from(t, key, 1)
    }
}

/// The node where a new key binds, walking from node `id`: the first node
/// whose next link on the key's side is 0.  Returns that node's ID and
/// whether the key attaches as its left child.
pub open spec fn spec_bind_parent(t: &Table, key: u64, id: int) -> (int, bool)
    decreases t.spec_size() - id
        when wf_index(t) && 1 <= id <= t.spec_size()
        via spec_bind_parent_decreases
{
    let n = spec_node(t, id);
    if key < n.hash {
        if n.left == 0 {
            (id, true)
        } else {
            spec_bind_parent(t, key, n.left as int)
        }
    } else {
        if n.right == 0 {
            (id, false)
        } else {
            spec_bind_parent(t, key, n.right as int)
        }
    }
}

#[via_fn]
proof fn spec_bind_parent_decreases(t: &Table, key: u64, id: int) {
    assert(wf_node(t, id));
}

/// How one `add` with key `key` turns index table `t1` into `t2`: a fresh
/// leaf holding the key is appended under the next record ID, and — unless
/// it is the root itself — the 0 link at the bind position is pointed at it,
/// every other node staying as it was.
pub open spec fn spec_added(t1: &Table, t2: &Table, key: u64) -> bool {
    let rid = t1.spec_size() + 1;
    &&& t2.spec_block_size() == t1.spec_block_size()
    &&& t2.spec_size() == rid
    &&& spec_node(t2, rid) == (Index { left: 0, right: 0, hash: key })
    &&& if t1.spec_size() == 0 {
        true
    } else {
        let p = spec_bind_parent(t1, key, 1).0;
        let went_left = spec_bind_parent(t1, key, 1).1;
        &&& 1 <= p <= t1.spec_size()
        &&& forall|i: int|
            1 <= i <= t1.spec_size() && i != p ==> spec_node(t2, i) == spec_node(t1, i)
        &&& spec_node(t2, p) == (if went_left {
            Index { left: rid as u64, ..spec_node(t1, p) }
        } else {
            Index { right: rid as u64, ..spec_node(t1, p) }
        })
    }
}

/// The key the hashed variant stores for a value with byte image `s`: the
/// digest of the standard library's default hasher over one write of `s`.
pub open spec fn spec_hash_value(s: Seq<u8>) -> u64 {
    DefaultHasher::spec_finish(seq![s])
}

/// The record IDs of the subtree rooted at node `id`, in preorder.
pub open spec fn subtree_ids(t: &Table, id: int) -> Seq<int>
    decreases t.spec_size() - id
        when wf_index(t) && 1 <= id <= t.spec_size()
        via subtree_ids_decreases
{
    let n = spec_node(t, id);
    let l = if n.left == 0 {
        Seq::<int>::empty()
    } else {
        subtree_ids(t, n.left as int)
    };
    let r = if n.right == 0 {
        Seq::<int>::empty()
    } else {
        subtree_ids(t, n.right as int)
    };
    seq![id] + l + r
}

#[via_fn]
proof fn subtree_ids_decreases(t: &Table, id: int) {
    assert(wf_node(t, id));
}

/// The search-tree shape at node `id`: every key in its left subtree is
/// strictly smaller than its own, every key in its right subtree is equal or
/// greater, and both subtrees have the shape in turn.
pub open spec fn bst_ok(t: &Table, id: int) -> bool
    decreases t.spec_size() - id
        when wf_index(t) && 1 <= id <= t.spec_size()
        via bst_ok_decreases
{
    let n = spec_node(t, id);
    &&& (n.left == 0 || (bst_ok(t, n.left as int) && (forall|j: int|
        #[trigger] subtree_ids(t, n.left as int).contains(j) ==> spec_node(t, j).hash < n.hash)))
    &&& (n.right == 0 || (bst_ok(t, n.right as int) && (forall|j: int|
        #[trigger] subtree_ids(t, n.right as int).contains(j) ==> spec_node(t, j).hash
            >= n.hash)))
}

#[via_fn]
proof fn bst_ok_decreases(t: &Table, id: int) {
    assert(wf_node(t, id));
}

/// The index tree's full invariant: a well-formed index whose tree — when it
/// has one — has the search-tree shape from the root, visits no record
/// twice, and reaches every record of the table.
pub open spec fn bst_inv(t: &Table) -> bool {
    &&& wf_index(t)
    &&& (t.spec_size() == 0 || (bst_ok(t, 1) && subtree_ids(t, 1).no_duplicates() && (forall|
        j: int,
    | 1 <= j <= t.spec_size() ==> #[trigger] subtree_ids(t, 1).contains(j))))
}

/// An element of a concatenation comes from one of its parts.
proof fn lemma_concat_contains<A>(a: Seq<A>, b: Seq<A>, x: A)
    ensures
        (a + b).contains(x) <==> a.contains(x) || b.contains(x),
{
    if (a + b).contains(x) {
        let i = choose|i: int| 0 <= i < (a + b).len() && (a + b)[i] == x;
        if i < a.len() {
            assert(a[i] == x);
        } else {
            assert(b[i - a.len()] == x);
        }
    }
    if a.contains(x) {
        let i = choose|i: int| 0 <= i < a.len() && a[i] == x;
        assert((a + b)[i] == x);
    }
    if b.contains(x) {
        let i = choose|i: int| 0 <= i < b.len() && b[i] == x;
        assert((a + b)[a.len() + i] == x);
    }
}

/// A duplicate-free concatenation has duplicate-free, disjoint parts.
proof fn lemma_no_dup_split<A>(a: Seq<A>, b: Seq<A>)
    requires
        (a + b).no_duplicates(),
    ensures
        a.no_duplicates(),
        b.no_duplicates(),
        forall|x: A| a.contains(x) ==> !b.contains(x),
{
    assert forall|i: int, j: int| 0 <= i < a.len() && 0 <= j < a.len() && i != j implies a[i]
        != a[j] by {
        assert((a + b)[i] == a[i]);
        assert((a + b)[j] == a[j]);
    }
    assert forall|i: int, j: int| 0 <= i < b.len() && 0 <= j < b.len() && i != j implies b[i]
        != b[j] by {
        assert((a + b)[a.len() + i] == b[i]);
        assert((a + b)[a.len() + j] == b[j]);
    }
    assert forall|x: A| a.contains(x) implies !b.contains(x) by {
        if a.contains(x) && b.contains(x) {
            let i = choose|i: int| 0 <= i < a.len() && a[i] == x;
            let j = choose|j: int| 0 <= j < b.len() && b[j] == x;
            assert((a + b)[i] == x);
            assert((a + b)[a.len() + j] == x);
        }
    }
}

/// Duplicate-free, disjoint parts concatenate without duplicates.
proof fn lemma_no_dup_join<A>(a: Seq<A>, b: Seq<A>)
    requires
        a.no_duplicates(),
        b.no_duplicates(),
        forall|x: A| a.contains(x) ==> !b.contains(x),
    ensures
        (a + b).no_duplicates(),
{
    assert forall|i: int, j: int|
        0 <= i < (a + b).len() && 0 <= j < (a + b).len() && i != j implies (a + b)[i] != (
    a + b)[j] by {
        if i < a.len() && j < a.len() {
            assert((a + b)[i] == a[i]);
            assert((a + b)[j] == a[j]);
        } else if i >= a.len() && j >= a.len() {
            assert((a + b)[i] == b[i - a.len()]);
            assert((a + b)[j] == b[j - a.len()]);
        } else if i < a.len() && j >= a.len() {
            assert((a + b)[i] == a[i]);
            assert((a + b)[j] == b[j - a.len()]);
            if a[i] == b[j - a.len()] {
                assert(a.contains(a[i]));
                assert(b.contains(b[j - a.len()]));
            }
        } else {
            assert((a + b)[i] == b[i - a.len()]);
            assert((a + b)[j] == a[j]);
            if a[j] == b[i - a.len()] {
                assert(a.contains(a[j]));
                assert(b.contains(b[i - a.len()]));
            }
        }
    }
}

/// Every ID in a subtree lies between the subtree's root and the table's
/// size: links only point forward.
proof fn lemma_subtree_range(t: &Table, id: int, j: int)
    requires
        wf_index(t),
        1 <= id <= t.spec_size(),
        subtree_ids(t, id).contains(j),
    ensures
        id <= j <= t.spec_size(),
    decreases t.spec_size() - id,
{
    assert(wf_node(t, id));
    let n = spec_node(t, id);
    let l = if n.left == 0 {
        Seq::<int>::empty()
    } else {
        subtree_ids(t, n.left as int)
    };
    let r = if n.right == 0 {
        Seq::<int>::empty()
    } else {
        subtree_ids(t, n.right as int)
    };
    lemma_concat_contains(seq![id] + l, r, j);
    lemma_concat_contains(seq![id], l, j);
    if seq![id].contains(j) {
        assert(j == id);
    } else if l.contains(j) {
        lemma_subtree_range(t, n.left as int, j);
    } else {
        lemma_subtree_range(t, n.right as int, j);
    }
}

/// A subtree contains its own root.
proof fn lemma_subtree_has_root(t: &Table, id: int)
    requires
        wf_index(t),
        1 <= id <= t.spec_size(),
    ensures
        subtree_ids(t, id).contains(id),
{
    assert(wf_node(t, id));
    assert(subtree_ids(t, id)[0] == id);
}

/// A subtree whose nodes all carry over unchanged keeps its exact ID
/// sequence and its search-tree shape.
proof fn lemma_subtree_frame(t1: &Table, t2: &Table, x: int)
    requires
        wf_index(t1),
        wf_index(t2),
        t1.spec_size() <= t2.spec_size(),
        1 <= x <= t1.spec_size(),
        forall|j: int|
            #[trigger] subtree_ids(t1, x).contains(j) ==> spec_node(t2, j) == spec_node(t1, j),
    ensures
        subtree_ids(t2, x) == subtree_ids(t1, x),
        bst_ok(t1, x) ==> bst_ok(t2, x),
    decreases t1.spec_size() - x,
{
    assert(wf_node(t1, x));
    lemma_subtree_has_root(t1, x);
    let n = spec_node(t1, x);
    let l = if n.left == 0 {
        Seq::<int>::empty()
    } else {
        subtree_ids(t1, n.left as int)
    };
    let r = if n.right == 0 {
        Seq::<int>::empty()
    } else {
        subtree_ids(t1, n.right as int)
    };
    assert forall|j: int| (seq![x] + l + r).contains(j) implies (seq![x].contains(j) || l.contains(
        j,
    ) || r.contains(j)) by {
        lemma_concat_contains(seq![x] + l, r, j);
        lemma_concat_contains(seq![x], l, j);
    }
    if n.left != 0 {
        assert forall|j: int| #[trigger] subtree_ids(t1, n.left as int).contains(j) implies
            spec_node(t2, j) == spec_node(t1, j) by {
            lemma_concat_contains(seq![x] + l, r, j);
            lemma_concat_contains(seq![x], l, j);
            assert(subtree_ids(t1, x).contains(j));
        }
        lemma_subtree_frame(t1, t2, n.left as int);
    }
    if n.right != 0 {
        assert forall|j: int| #[trigger] subtree_ids(t1, n.right as int).contains(j) implies
            spec_node(t2, j) == spec_node(t1, j) by {
            lemma_concat_contains(seq![x] + l, r, j);
            assert(subtree_ids(t1, x).contains(j));
        }
        lemma_subtree_frame(t1, t2, n.right as int);
    }
    assert(spec_node(t2, x) == spec_node(t1, x));
    assert(subtree_ids(t2, x) == subtree_ids(t1, x));
    if bst_ok(t1, x) {
        assert(bst_ok(t2, x));
    }
}

/// The bind position for a key is a node of the subtree walked.
proof fn lemma_bind_parent_in_subtree(t: &Table, key: u64, id: int)
    requires
        wf_index(t),
        1 <= id <= t.spec_size(),
    ensures
        subtree_ids(t, id).contains(spec_bind_parent(t, key, id).0),
        1 <= spec_bind_parent(t, key, id).0 <= t.spec_size(),
    decreases t.spec_size() - id,
{
    assert(wf_node(t, id));
    let n = spec_node(t, id);
    let l = if n.left == 0 {
        Seq::<int>::empty()
    } else {
        subtree_ids(t, n.left as int)
    };
    let r = if n.right == 0 {
        Seq::<int>::empty()
    } else {
        subtree_ids(t, n.right as int)
    };
    let p = spec_bind_parent(t, key, id).0;
    if key < n.hash && n.left != 0 {
        lemma_bind_parent_in_subtree(t, key, n.left as int);
        lemma_concat_contains(seq![id], l, p);
        lemma_concat_contains(seq![id] + l, r, p);
    } else if key >= n.hash && n.right != 0 {
        lemma_bind_parent_in_subtree(t, key, n.right as int);
        lemma_concat_contains(seq![id] + l, r, p);
    } else {
        lemma_subtree_has_root(t, id);
    }
}

/// One `add` keeps the search-tree shape of every subtree on the bind path:
/// the fresh leaf lands exactly where its key belongs, every other subtree
/// carries over unchanged, and no record is visited twice.
proof fn lemma_added_preserves_bst_at(t1: &Table, t2: &Table, key: u64, m: int)
    requires
        wf_index(t1),
        wf_index(t2),
        t1.spec_size() >= 1,
        spec_added(t1, t2, key),
        1 <= m <= t1.spec_size(),
        spec_bind_parent(t1, key, m) == spec_bind_parent(t1, key, 1),
        bst_ok(t1, m),
        subtree_ids(t1, m).no_duplicates(),
    ensures
        bst_ok(t2, m),
        subtree_ids(t2, m).no_duplicates(),
        forall|j: int|
            #![trigger subtree_ids(t2, m).contains(j)]
            #![trigger subtree_ids(t1, m).contains(j)]
            subtree_ids(t2, m).contains(j) <==> (subtree_ids(t1, m).contains(j) || j
                == t1.spec_size() + 1),
    decreases t1.spec_size() - m,
{
    let rid = t1.spec_size() + 1;
    let p = spec_bind_parent(t1, key, 1).0;
    let wl = spec_bind_parent(t1, key, 1).1;
    t1.lemma_size_le_len();
    assert(wf_node(t1, m));
    assert(wf_node(t2, m));
    assert(wf_node(t2, rid));
    let n1 = spec_node(t1, m);
    let n2 = spec_node(t2, m);
    let l1 = if n1.left == 0 {
        Seq::<int>::empty()
    } else {
        subtree_ids(t1, n1.left as int)
    };
    let r1 = if n1.right == 0 {
        Seq::<int>::empty()
    } else {
        subtree_ids(t1, n1.right as int)
    };
    assert(subtree_ids(t1, m) == seq![m] + l1 + r1);
    lemma_no_dup_split(seq![m] + l1, r1);
    lemma_no_dup_split(seq![m], l1);
    assert(seq![m][0] == m);
    assert(seq![m].contains(m));
    assert(!l1.contains(m));
    assert((seq![m] + l1).contains(m)) by {
        lemma_concat_contains(seq![m], l1, m);
    }
    assert(!r1.contains(m));
    assert(subtree_ids(t2, rid) =~= seq![rid]);
    assert forall|i: int| 1 <= i <= t1.spec_size() implies (#[trigger] spec_node(t2, i)).hash
        == spec_node(t1, i).hash by {}
    assert forall|x: int| r1.contains(x) implies 1 <= x <= t1.spec_size() by {
        lemma_subtree_range(t1, n1.right as int, x);
    }
    assert forall|x: int| l1.contains(x) implies 1 <= x <= t1.spec_size() by {
        lemma_subtree_range(t1, n1.left as int, x);
    }

    if key < n1.hash {
        if n1.left == 0 {
            assert(p == m && wl);
            assert(n2 == Index { left: rid as u64, ..n1 });
            if n1.right != 0 {
                let d = n1.right as int;
                assert forall|j: int| #[trigger] subtree_ids(t1, d).contains(j) implies spec_node(
                    t2,
                    j,
                ) == spec_node(t1, j) by {
                    lemma_subtree_range(t1, d, j);
                }
                lemma_subtree_frame(t1, t2, d);
            }
            let l2 = subtree_ids(t2, rid);
            let r2 = if n2.right == 0 {
                Seq::<int>::empty()
            } else {
                subtree_ids(t2, n2.right as int)
            };
            assert(r2 == r1);
            assert(subtree_ids(t2, m) == seq![m] + l2 + r2);
            assert(l2[0] == rid);
            assert forall|j: int|
                #![trigger subtree_ids(t2, m).contains(j)]
                #![trigger subtree_ids(t1, m).contains(j)]
                subtree_ids(t2, m).contains(j) <==> (subtree_ids(t1, m).contains(j) || j
                    == rid) by {
                lemma_concat_contains(seq![m] + l2, r2, j);
                lemma_concat_contains(seq![m], l2, j);
                lemma_concat_contains(seq![m] + l1, r1, j);
                lemma_concat_contains(seq![m], l1, j);
                if l2.contains(j) {
                    assert(j == rid);
                }
            }
            lemma_no_dup_join(seq![m], l2);
            assert forall|x: int| (seq![m] + l2).contains(x) implies !r2.contains(x) by {
                lemma_concat_contains(seq![m], l2, x);
            }
            lemma_no_dup_join(seq![m] + l2, r2);
            assert(bst_ok(t2, rid));
            assert forall|j: int| #[trigger] subtree_ids(t2, rid).contains(j) implies spec_node(
                t2,
                j,
            ).hash < n2.hash by {
                assert(j == rid);
            }
            assert forall|j: int|
                n2.right != 0 && #[trigger] subtree_ids(t2, n2.right as int).contains(
                    j,
                ) implies spec_node(t2, j).hash >= n2.hash by {
                assert(r1.contains(j));
            }
            assert(bst_ok(t2, m));
        } else {
            let c = n1.left as int;
            assert(bst_ok(t1, c));
            lemma_added_preserves_bst_at(t1, t2, key, c);
            lemma_bind_parent_in_subtree(t1, key, c);
            assert(l1.contains(p));
            assert(m != p);
            assert(n2 == n1);
            assert((seq![m] + l1).contains(p)) by {
                lemma_concat_contains(seq![m], l1, p);
            }
            assert(!r1.contains(p));
            if n1.right != 0 {
                let d = n1.right as int;
                assert forall|j: int| #[trigger] subtree_ids(t1, d).contains(j) implies spec_node(
                    t2,
                    j,
                ) == spec_node(t1, j) by {
                    lemma_subtree_range(t1, d, j);
                }
                lemma_subtree_frame(t1, t2, d);
            }
            let l2 = subtree_ids(t2, c);
            let r2 = if n2.right == 0 {
                Seq::<int>::empty()
            } else {
                subtree_ids(t2, n2.right as int)
            };
            assert(r2 == r1);
            assert(subtree_ids(t2, m) == seq![m] + l2 + r2);
            assert forall|j: int|
                #![trigger subtree_ids(t2, m).contains(j)]
                #![trigger subtree_ids(t1, m).contains(j)]
                subtree_ids(t2, m).contains(j) <==> (subtree_ids(t1, m).contains(j) || j
                    == rid) by {
                lemma_concat_contains(seq![m] + l2, r2, j);
                lemma_concat_contains(seq![m], l2, j);
                lemma_concat_contains(seq![m] + l1, r1, j);
                lemma_concat_contains(seq![m], l1, j);
            }
            assert(!l2.contains(m));
            lemma_no_dup_join(seq![m], l2);
            assert forall|x: int| (seq![m] + l2).contains(x) implies !r2.contains(x) by {
                lemma_concat_contains(seq![m], l2, x);
            }
            lemma_no_dup_join(seq![m] + l2, r2);
            assert forall|j: int| #[trigger] subtree_ids(t2, c).contains(j) implies spec_node(
                t2,
                j,
            ).hash < n2.hash by {
                assert(subtree_ids(t1, c).contains(j) || j == rid);
                if subtree_ids(t1, c).contains(j) {
                    assert(l1.contains(j));
                    assert(1 <= j <= t1.spec_size());
                    assert(spec_node(t1, j).hash < n1.hash);
                    assert(spec_node(t2, j).hash == spec_node(t1, j).hash);
                } else {
                    assert(spec_node(t2, j).hash == key);
                }
            }
            assert forall|j: int|
                n2.right != 0 && #[trigger] subtree_ids(t2, n2.right as int).contains(
                    j,
                ) implies spec_node(t2, j).hash >= n2.hash by {
                assert(r1.contains(j));
            }
            assert(bst_ok(t2, m));
        }
    } else {
        if n1.right == 0 {
            assert(p == m && !wl);
            assert(n2 == Index { right: rid as u64, ..n1 });
            if n1.left != 0 {
                let d = n1.left as int;
                assert forall|j: int| #[trigger] subtree_ids(t1, d).contains(j) implies spec_node(
                    t2,
                    j,
                ) == spec_node(t1, j) by {
                    lemma_subtree_range(t1, d, j);
                }
                lemma_subtree_frame(t1, t2, d);
            }
            let l2 = if n2.left == 0 {
                Seq::<int>::empty()
            } else {
                subtree_ids(t2, n2.left as int)
            };
            let r2 = subtree_ids(t2, rid);
            assert(l2 == l1);
            assert(subtree_ids(t2, m) == seq![m] + l2 + r2);
            assert(r2[0] == rid);
            assert forall|j: int|
                #![trigger subtree_ids(t2, m).contains(j)]
                #![trigger subtree_ids(t1, m).contains(j)]
                subtree_ids(t2, m).contains(j) <==> (subtree_ids(t1, m).contains(j) || j
                    == rid) by {
                lemma_concat_contains(seq![m] + l2, r2, j);
                lemma_concat_contains(seq![m], l2, j);
                lemma_concat_contains(seq![m] + l1, r1, j);
                lemma_concat_contains(seq![m], l1, j);
                if r2.contains(j) {
                    assert(j == rid);
                }
            }
            lemma_no_dup_join(seq![m], l2);
            assert forall|x: int| (seq![m] + l2).contains(x) implies !r2.contains(x) by {
                lemma_concat_contains(seq![m], l2, x);
            }
            lemma_no_dup_join(seq![m] + l2, r2);
            assert(bst_ok(t2, rid));
            assert forall|j: int| #[trigger] subtree_ids(t2, rid).contains(j) implies spec_node(
                t2,
                j,
            ).hash >= n2.hash by {
                assert(j == rid);
            }
            assert forall|j: int|
                n2.left != 0 && #[trigger] subtree_ids(t2, n2.left as int).contains(
                    j,
                ) implies spec_node(t2, j).hash < n2.hash by {
                assert(l1.contains(j));
            }
            assert(bst_ok(t2, m));
        } else {
            let c = n1.right as int;
            assert(bst_ok(t1, c));
            lemma_added_preserves_bst_at(t1, t2, key, c);
            lemma_bind_parent_in_subtree(t1, key, c);
            assert(r1.contains(p));
            assert(m != p);
            assert(!(seq![m] + l1).contains(p));
            assert(!l1.contains(p)) by {
                lemma_concat_contains(seq![m], l1, p);
            }
            assert(n2 == n1);
            if n1.left != 0 {
                let d = n1.left as int;
                assert forall|j: int| #[trigger] subtree_ids(t1, d).contains(j) implies spec_node(
                    t2,
                    j,
                ) == spec_node(t1, j) by {
                    lemma_subtree_range(t1, d, j);
                }
                lemma_subtree_frame(t1, t2, d);
            }
            let l2 = if n2.left == 0 {
                Seq::<int>::empty()
            } else {
                subtree_ids(t2, n2.left as int)
            };
            let r2 = subtree_ids(t2, c);
            assert(l2 == l1);
            assert(subtree_ids(t2, m) == seq![m] + l2 + r2);
            assert forall|j: int|
                #![trigger subtree_ids(t2, m).contains(j)]
                #![trigger subtree_ids(t1, m).contains(j)]
                subtree_ids(t2, m).contains(j) <==> (subtree_ids(t1, m).contains(j) || j
                    == rid) by {
                lemma_concat_contains(seq![m] + l2, r2, j);
                lemma_concat_contains(seq![m], l2, j);
                lemma_concat_contains(seq![m] + l1, r1, j);
                lemma_concat_contains(seq![m], l1, j);
            }
            lemma_no_dup_join(seq![m], l2);
            assert forall|x: int| (seq![m] + l2).contains(x) implies !r2.contains(x) by {
                lemma_concat_contains(seq![m], l2, x);
                if r2.contains(x) {
                    assert(r1.contains(x) || x == rid);
                }
            }
            lemma_no_dup_join(seq![m] + l2, r2);
            assert forall|j: int| #[trigger] subtree_ids(t2, c).contains(j) implies spec_node(
                t2,
                j,
            ).hash >= n2.hash by {
                assert(subtree_ids(t1, c).contains(j) || j == rid);
                if subtree_ids(t1, c).contains(j) {
                    assert(r1.contains(j));
                    assert(1 <= j <= t1.spec_size());
                    assert(spec_node(t1, j).hash >= n1.hash);
                    assert(spec_node(t2, j).hash == spec_node(t1, j).hash);
                } else {
                    assert(spec_node(t2, j).hash == key);
                }
            }
            assert forall|j: int|
                n2.left != 0 && #[trigger] subtree_ids(t2, n2.left as int).contains(
                    j,
                ) implies spec_node(t2, j).hash < n2.hash by {
                assert(l1.contains(j));
            }
            assert(bst_ok(t2, m));
        }
    }
}

/// Adding a key preserves the index tree's invariant: after the add the tree
/// still has the search-tree shape (left keys strictly smaller, right keys
/// equal or greater) and still visits no record twice.
pub proof fn lemma_add_preserves_bst(t1: &Table, t2: &Table, key: u64)
    requires
        bst_inv(t1),
        wf_index(t2),
        spec_added(t1, t2, key),
    ensures
        bst_inv(t2),
{
    let rid = t1.spec_size() + 1;
    if t1.spec_size() == 0 {
        assert(wf_node(t2, 1));
        assert(spec_node(t2, 1) == (Index { left: 0, right: 0, hash: key }));
        assert(bst_ok(t2, 1));
        assert(subtree_ids(t2, 1) =~= seq![1int]);
        assert(subtree_ids(t2, 1).no_duplicates());
        assert(subtree_ids(t2, 1)[0] == 1);
        assert(subtree_ids(t2, 1).contains(1));
    } else {
        lemma_added_preserves_bst_at(t1, t2, key, 1);
        assert forall|j: int| 1 <= j <= t2.spec_size() implies #[trigger] subtree_ids(
            t2,
            1,
        ).contains(j) by {
            if j <= t1.spec_size() {
                assert(subtree_ids(t1, 1).contains(j));
            }
        }
    }
}

/// The duplicate-detection guarantee of a whole search: on an index
/// satisfying the invariant, `search_many` yields exactly the records whose
/// stored key equals the query key — none is missed and none is wrong.
pub proof fn lemma_search_many_exact(t: &Table, key: u64)
    requires
        bst_inv(t),
    ensures
        forall|u: usize|
            #[trigger] spec_search(t, key).contains(u) ==> 1 <= u as int <= t.spec_size()
                && spec_node(t, u as int).hash == key,
        forall|j: int|
            1 <= j <= t.spec_size() && (#[trigger] spec_node(t, j)).hash == key ==> spec_search(
                t,
                key,
            ).contains(j as usize),
{
    if t.spec_size() >= 1 {
        lemma_search_exact(t, key, 1);
        assert forall|u: usize| #[trigger] spec_search(t, key).contains(u) implies 1 <= u as int
            <= t.spec_size() && spec_node(t, u as int).hash == key by {
            assert(spec_search_from(t, key, 1).contains(u));
            lemma_subtree_range(t, 1, u as int);
        }
        assert forall|j: int|
            1 <= j <= t.spec_size() && (#[trigger] spec_node(t, j)).hash == key implies
            spec_search(t, key).contains(j as usize) by {
            assert(subtree_ids(t, 1).contains(j));
            assert(spec_search_from(t, key, 1).contains(j as usize));
        }
    }
}

/// Searches are idempotent: two searches for the same key with no write
/// between them yield the same ID sequence, both being pinned to
/// `spec_search`.
pub proof fn lemma_search_idempotent(t: &Table, key: u64, r1: Seq<usize>, r2: Seq<usize>)
    requires
        r1 == spec_search(t, key),
        r2 == spec_search(t, key),
    ensures
        r1 == r2,
{
}

/// Every node reachable from the root of a search-tree-shaped index has the
/// shape itself: all keys in its left subtree are strictly smaller than its
/// key, and all keys in its right subtree are equal or greater.
pub proof fn lemma_bst_reachable(t: &Table, id: int, m: int)
    requires
        wf_index(t),
        1 <= id <= t.spec_size(),
        bst_ok(t, id),
        subtree_ids(t, id).contains(m),
    ensures
        1 <= m <= t.spec_size(),
        bst_ok(t, m),
    decreases t.spec_size() - id,
{
    lemma_subtree_range(t, id, m);
    assert(wf_node(t, id));
    let n = spec_node(t, id);
    let l = if n.left == 0 {
        Seq::<int>::empty()
    } else {
        subtree_ids(t, n.left as int)
    };
    let r = if n.right == 0 {
        Seq::<int>::empty()
    } else {
        subtree_ids(t, n.right as int)
    };
    lemma_concat_contains(seq![id] + l, r, m);
    lemma_concat_contains(seq![id], l, m);
    if seq![id].contains(m) {
        assert(m == id);
    } else if l.contains(m) {
        lemma_bst_reachable(t, n.left as int, m);
    } else {
        lemma_bst_reachable(t, n.right as int, m);
    }
}

/// On a search-tree-shaped subtree, a search yields exactly the matching
/// records: every yielded ID belongs to the subtree and carries the queried
/// key, and every subtree node carrying that key is yielded.
pub proof fn lemma_search_exact(t: &Table, key: u64, id: int)
    requires
        wf_index(t),
        1 <= id <= t.spec_size(),
        bst_ok(t, id),
    ensures
        forall|u: usize|
            #[trigger] spec_search_from(t, key, id).contains(u) ==> subtree_ids(t, id).contains(
                u as int,
            ) && spec_node(t, u as int).hash == key,
        forall|j: int|
            #[trigger] subtree_ids(t, id).contains(j) && spec_node(t, j).hash == key
                ==> spec_search_from(t, key, id).contains(j as usize),
    decreases t.spec_size() - id,
{
    t.lemma_size_le_len();
    assert(wf_node(t, id));
    let n = spec_node(t, id);
    let l = if n.left == 0 {
        Seq::<int>::empty()
    } else {
        subtree_ids(t, n.left as int)
    };
    let r = if n.right == 0 {
        Seq::<int>::empty()
    } else {
        subtree_ids(t, n.right as int)
    };
    assert(subtree_ids(t, id) == seq![id] + l + r);
    assert(seq![id][0] == id);
    assert(seq![id as usize][0] == id as usize);
    if n.left != 0 {
        lemma_search_exact(t, key, n.left as int);
    }
    if n.right != 0 {
        lemma_search_exact(t, key, n.right as int);
    }
    assert forall|j: int| l.contains(j) implies 1 <= j <= t.spec_size() by {
        lemma_subtree_range(t, n.left as int, j);
    }
    assert forall|j: int| r.contains(j) implies 1 <= j <= t.spec_size() by {
        lemma_subtree_range(t, n.right as int, j);
    }

    let yielded = spec_search_from(t, key, id);
    assert forall|u: usize| #[trigger] yielded.contains(u) implies subtree_ids(t, id).contains(
        u as int,
    ) && spec_node(t, u as int).hash == key by {
        if key < n.hash {
            assert(n.left != 0);
            assert(spec_search_from(t, key, n.left as int).contains(u));
            assert(l.contains(u as int));
        } else {
            let tail = if n.right == 0 {
                Seq::<usize>::empty()
            } else {
                spec_search_from(t, key, n.right as int)
            };
            if key == n.hash {
                lemma_concat_contains(seq![id as usize], tail, u);
                if seq![id as usize].contains(u) {
                    assert(u as int == id);
                } else {
                    assert(tail.contains(u));
                    assert(spec_search_from(t, key, n.right as int).contains(u));
                    assert(r.contains(u as int));
                }
            } else {
                assert(tail.contains(u));
                assert(spec_search_from(t, key, n.right as int).contains(u));
                assert(r.contains(u as int));
            }
        }
        lemma_concat_contains(seq![id] + l, r, u as int);
        lemma_concat_contains(seq![id], l, u as int);
    }
    assert forall|j: int|
        #[trigger] subtree_ids(t, id).contains(j) && spec_node(t, j).hash == key implies
        yielded.contains(j as usize) by {
        lemma_subtree_range(t, id, j);
        assert(j as usize as int == j);
        lemma_concat_contains(seq![id] + l, r, j);
        lemma_concat_contains(seq![id], l, j);
        if key < n.hash {
            if j == id {
                assert(false);
            } else if r.contains(j) {
                assert(spec_node(t, j).hash >= n.hash);
                assert(false);
            } else {
                assert(l.contains(j));
                assert(spec_search_from(t, key, n.left as int).contains(j as usize));
            }
        } else if key == n.hash {
            let tail = if n.right == 0 {
                Seq::<usize>::empty()
            } else {
                spec_search_from(t, key, n.right as int)
            };
            lemma_concat_contains(seq![id as usize], tail, j as usize);
            if j == id {
                assert(seq![id as usize].contains(j as usize));
            } else if l.contains(j) {
                assert(spec_node(t, j).hash < n.hash);
                assert(false);
            } else {
                assert(r.contains(j));
                assert(tail.contains(j as usize));
            }
        } else {
            if j == id {
                assert(false);
            } else if l.contains(j) {
                assert(spec_node(t, j).hash < n.hash);
                assert(false);
            } else {
                assert(r.contains(j));
                assert(spec_search_from(t, key, n.right as int).contains(j as usize));
            }
        }
    }
}

/// A search for `key` on two tables whose first `t1.spec_size()` nodes agree
/// follows the same path and yields the same IDs.
proof fn lemma_walk_agrees(t1: &Table, t2: &Table, key: u64, id: int)
    requires
        wf_index(t1),
        wf_index(t2),
        t1.spec_size() <= t2.spec_size(),
        forall|i: int| 1 <= i <= t1.spec_size() ==> spec_node(t2, i) == spec_node(t1, i),
        1 <= id <= t1.spec_size(),
    ensures
        spec_bind_parent(t2, key, id) == spec_bind_parent(t1, key, id),
        spec_search_from(t2, key, id) == spec_search_from(t1, key, id),
    decreases t1.spec_size() - id,
{
    assert(wf_node(t1, id));
    let n = spec_node(t1, id);
    if key < n.hash {
        if n.left != 0 {
            lemma_walk_agrees(t1, t2, key, n.left as int);
        }
    } else {
        if n.right != 0 {
            lemma_walk_agrees(t1, t2, key, n.right as int);
        }
    }
}

impl Index {
    /// A fresh leaf node with the given key.
    pub fn new(hash: u64) -> (r: Index)
        ensures
            r == (Index { left: 0, right: 0, hash }),
    {
        Index { left: 0, right: 0, hash }
    }

    /// The key the hashed variant derives from a value's byte image: a
    /// 64-bit digest that depends on the bytes alone, so it is stable across
    /// process restarts.
    pub fn _hash_value(value: &[u8]) -> (r: u64)
        ensures
            r == spec_hash_value(value@),
    {
        let mut hasher = DefaultHasher::new();
        hasher.write(value);
        proof {
            assert(hasher@ =~= seq![value@]);
        }
        hasher.finish()
    }

    /// Inserts a value into the hashed index: stores its hash as the key of
    /// a new node and returns the new record's ID.
    pub fn add(table: &mut Table, value: &[u8]) -> (r: Result<usize, StoreError>)
        requires
            wf_index(old(table)),
            old(table).spec_size() < usize::MAX,
        ensures
            wf_index(final(table)),
            spec_added(old(table), final(table), spec_hash_value(value@)),
            bst_inv(old(table)) ==> bst_inv(final(table)),
            r matches Ok(id) && id as int == old(table).spec_size() + 1,
    {
        let hash = Self::_hash_value(value);
        Self::add_key(table, hash)
    }

    /// Inserts a key into the ordered index (the key is the indexed value
    /// itself): appends a fresh leaf under the next record ID, binds it into
    /// the tree, and returns its ID.
    pub fn add_key(table: &mut Table, key: u64) -> (r: Result<usize, StoreError>)
        requires
            wf_index(old(table)),
            old(table).spec_size() < usize::MAX,
        ensures
            wf_index(final(table)),
            spec_added(old(table), final(table), key),
            bst_inv(old(table)) ==> bst_inv(final(table)),
            r matches Ok(id) && id as int == old(table).spec_size() + 1,
    {
        let record = Self::new(key);
        let record_id = match record.insert(table) {
            Ok(id) => id,
            Err(e) => {
                return Err(e);
            },
        };
        let ghost t_mid = *table;
        proof {
            record.lemma_codec();
            assert(spec_node(&t_mid, record_id as int) == record);
            assert forall|i: int| 1 <= i <= t_mid.spec_size() implies #[trigger] wf_node(
                &t_mid,
                i,
            ) by {
                if i < record_id {
                    assert(wf_node(old(table), i));
                    assert(spec_node(&t_mid, i) == spec_node(old(table), i));
                }
            }
            assert forall|i: int| 1 <= i < record_id implies ((#[trigger] spec_node(
                &t_mid,
                i,
            )).left as int) != record_id && (spec_node(&t_mid, i).right as int) != record_id by {
                assert(wf_node(old(table), i));
                assert(spec_node(&t_mid, i) == spec_node(old(table), i));
            }
        }
        match Self::_bind(table, key, record_id) {
            Ok(()) => {},
            Err(e) => {
                return Err(e);
            },
        }
        proof {
            if old(table).spec_size() > 0 {
                assert forall|i: int| 1 <= i <= old(table).spec_size() implies spec_node(
                    &t_mid,
                    i,
                ) == spec_node(old(table), i) by {
                    assert(wf_node(old(table), i));
                }
                lemma_walk_agrees(old(table), &t_mid, key, 1);
            }
            if bst_inv(old(table)) {
                lemma_add_preserves_bst(old(table), table, key);
            }
        }
        Ok(record_id)
    }

    /// Finds the first record whose stored hash equals the value's hash, in
    /// traversal order; fails exactly when no record matches.
    pub fn search_one(table: &Table, value: &[u8]) -> (r: Result<usize, StoreError>)
        requires
            wf_index(table),
        ensures
            match r {
                Ok(id) => spec_search(table, spec_hash_value(value@)).len() > 0 && id
                    == spec_search(table, spec_hash_value(value@))[0],
                Err(e) => spec_search(table, spec_hash_value(value@)).len() == 0 && e
                    == StoreError::NotFound,
            },
    {
        let hash = Self::_hash_value(value);
        Self::search_one_key(table, hash)
    }

    /// Finds the first record whose key equals `key`, in traversal order;
    /// fails exactly when no record matches.
    pub fn search_one_key(table: &Table, key: u64) -> (r: Result<usize, StoreError>)
        requires
            wf_index(table),
        ensures
            match r {
                Ok(id) => spec_search(table, key).len() > 0 && id == spec_search(table, key)[0],
                Err(e) => spec_search(table, key).len() == 0 && e == StoreError::NotFound,
            },
    {
        let matches = Self::search_many_key(table, key);
        if matches.len() == 0 {
            Err(StoreError::NotFound)
        } else {
            Ok(matches[0])
        }
    }

    /// Collects every record whose stored hash equals the value's hash, in
    /// traversal order.
    pub fn search_many(table: &Table, value: &[u8]) -> (r: Vec<usize>)
        requires
            wf_index(table),
        ensures
            r@ == spec_search(table, spec_hash_value(value@)),
    {
        let hash = Self::_hash_value(value);
        Self::search_many_key(table, hash)
    }

    /// Collects every record whose key equals `key`, in traversal order:
    /// descend left while the key is strictly smaller than the node's,
    /// otherwise yield on equality and continue right.
    pub fn search_many_key(table: &Table, key: u64) -> (r: Vec<usize>)
        requires
            wf_index(table),
        ensures
            r@ == spec_search(table, key),
    {
        let mut out: Vec<usize> = Vec::new();
        let mut id: usize = if table.empty() {
            0
        } else {
            1
        };
        while id > 0
            invariant
                wf_index(table),
                id == 0 || 1 <= id as int <= table.spec_size(),
                out@ + (if id == 0 {
                    Seq::<usize>::empty()
                } else {
                    spec_search_from(table, key, id as int)
                }) == spec_search(table, key),
            decreases (if id == 0 {
                0int
            } else {
                table.spec_size() + 1 - id
            }),
        {
            proof {
                assert(wf_node(table, id as int));
                table.lemma_size_le_len();
            }
            let rec = match Self::get(table, id) {
                Ok(rec) => rec,
                Err(_) => {
                    proof {
                        assert(false);
                    }
                    return out;
                },
            };
            if key < rec.hash {
                id = rec.left as usize;
            } else {
                if key == rec.hash {
                    proof {
                        assert(out@ + (seq![id] + (if rec.right == 0 {
                            Seq::<usize>::empty()
                        } else {
                            spec_search_from(table, key, rec.right as int)
                        })) =~= (out@ + seq![id]) + (if rec.right == 0 {
                            Seq::<usize>::empty()
                        } else {
                            spec_search_from(table, key, rec.right as int)
                        }));
                        assert(out@.push(id) =~= out@ + seq![id]);
                    }
                    out.push(id);
                }
                id = rec.right as usize;
            }
        }
        out
    }

    /// Walks from the root to the bind position for `hash` and points the 0
    /// link found there at the freshly appended record `record_id`.  When the
    /// new record is the root itself there is nothing to bind.
    fn _bind(table: &mut Table, hash: u64, record_id: usize) -> (r: Result<(), StoreError>)
        requires
            wf_index(old(table)),
            1 <= record_id,
            record_id as int == old(table).spec_size(),
            spec_node(old(table), record_id as int) == (Index { left: 0, right: 0, hash }),
            forall|i: int|
                1 <= i < record_id ==> ((#[trigger] spec_node(old(table), i)).left as int)
                    != record_id && (spec_node(old(table), i).right as int) != record_id,
        ensures
            r == Ok::<(), StoreError>(()),
            wf_index(final(table)),
            final(table).spec_size() == old(table).spec_size(),
            final(table).spec_block_size() == old(table).spec_block_size(),
            spec_node(final(table), record_id as int) == (Index { left: 0, right: 0, hash }),
            if record_id == 1 {
                *final(table) == *old(table)
            } else {
                ({
                    let p = spec_bind_parent(old(table), hash, 1).0;
                    let went_left = spec_bind_parent(old(table), hash, 1).1;
                    &&& 1 <= p < record_id
                    &&& forall|i: int|
                        1 <= i <= old(table).spec_size() && i != p ==> spec_node(final(table), i)
                            == spec_node(old(table), i)
                    &&& spec_node(final(table), p) == (if went_left {
                        Index { left: record_id as u64, ..spec_node(old(table), p) }
                    } else {
                        Index { right: record_id as u64, ..spec_node(old(table), p) }
                    })
                })
            },
    {
        if record_id == 1 {
            return Ok(());
        }
        let mut id: usize = 1;
        loop
            invariant
                wf_index(table),
                *table == *old(table),
                2 <= record_id,
                record_id as int == table.spec_size(),
                spec_node(table, record_id as int) == (Index { left: 0, right: 0, hash }),
                forall|i: int|
                    1 <= i < record_id ==> ((#[trigger] spec_node(table, i)).left as int)
                        != record_id && (spec_node(table, i).right as int) != record_id,
                1 <= id < record_id,
                spec_bind_parent(table, hash, id as int) == spec_bind_parent(table, hash, 1),
            decreases table.spec_size() - id,
        {
            proof {
                assert(wf_node(table, id as int));
                table.lemma_size_le_len();
            }
            let mut rec = match Self::get(table, id) {
                Ok(rec) => rec,
                Err(_) => {
                    proof {
                        assert(false);
                    }
                    return Err(StoreError::OutOfBounds);
                },
            };
            let id_next: u64 = if hash < rec.hash {
                rec.left
            } else {
                rec.right
            };
            if id_next == 0 {
                if hash < rec.hash {
                    rec.left = record_id as u64;
                } else {
                    rec.right = record_id as u64;
                }
                match rec.update(table, id) {
                    Ok(()) => {},
                    Err(_) => {
                        proof {
                            assert(false);
                        }
                        return Err(StoreError::OutOfBounds);
                    },
                };
                proof {
                    rec.lemma_codec();
                    assert(spec_node(table, id as int) == rec);
                    assert(spec_bind_parent(old(table), hash, id as int) == (
                        id as int,
                        hash < spec_node(old(table), id as int).hash,
                    ));
                    assert forall|j: int| 1 <= j <= table.spec_size() implies #[trigger] wf_node(
                        table,
                        j,
                    ) by {
                        assert(wf_node(old(table), j));
                        if j != id {
                            assert(spec_node(table, j) == spec_node(old(table), j));
                        }
                    }
                }
                return Ok(());
            }
            proof {
                table.lemma_size_le_len();
            }
            id = id_next as usize;
        }
    }
}

} // verus!
