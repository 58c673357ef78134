//! The accumulator: a complete binary tree kept as a 1-indexed array, its
//! membership proofs and their verification.

use vstd::prelude::*;

use crate::hashing::{Digest, hash_eq, hash_leaf, hash_node, hash_null, leaf_hash, node_hash, null_hash};

verus! {

/// The first four bytes of an exported commitment record.
pub const RECORD_MAGIC: u32 = 0x41555756;

/// The update-type byte of an exported commitment record.
pub const RECORD_UPDATE_TYPE: u8 = 0;

/// The four bytes of `x`, most significant first.
pub open spec fn be_bytes(x: u32) -> Seq<u8> {
    seq![
        (x / 0x1000000) as u8,
        ((x / 0x10000) % 0x100) as u8,
        ((x / 0x100) % 0x100) as u8,
        (x % 0x100) as u8,
    ]
}

/// The exported record of a root under a storage id: magic, update type,
/// id, then the 32 root bytes.
pub open spec fn commitment_record(root: Digest, storage: u32) -> Seq<u8> {
    be_bytes(RECORD_MAGIC) + seq![RECORD_UPDATE_TYPE] + be_bytes(storage) + root@
}

/// Appends the big-endian bytes of `x`.
fn push_be_u32(out: &mut Vec<u8>, x: u32)
    ensures
        final(out)@ == old(out)@ + be_bytes(x),
{
    out.push((x / 0x1000000) as u8);
    out.push(((x / 0x10000) % 0x100) as u8);
    out.push(((x / 0x100) % 0x100) as u8);
    out.push((x % 0x100) as u8);
    assert(final(out)@ =~= old(out)@ + be_bytes(x));
}

/// Two to the power `d`.
pub open spec fn two_pow(d: nat) -> nat
    decreases d,
{
    if d == 0 {
        1
    } else {
        2 * two_pow((d - 1) as nat)
    }
}

/// The depth of a tree over `n` items: the ceiling of `log2(n)`, and 0 for a
/// single item.
pub open spec fn tree_depth(n: nat) -> nat
    decreases n,
{
    if n <= 1 {
        0
    } else {
        tree_depth(((n + 1) / 2) as nat) + 1
    }
}

/// The number of leaf slots of a tree over `n` items.
pub open spec fn leaf_count(n: nat) -> nat {
    two_pow(tree_depth(n))
}

/// The digest that fills the unused slot 0 of the node array.
pub open spec fn zero_hash() -> Digest {
    vstd::array::spec_array_fill_for_copy_type::<u8, 32>(0u8)
}

/// What leaf slot `i` holds: the hash of item `i`, or padding past the items.
pub open spec fn leaf_slot(items: Seq<Seq<u8>>, i: int) -> Digest {
    if i < items.len() {
        leaf_hash(items[i])
    } else {
        null_hash()
    }
}

/// What index `idx` of the node array holds, for `lc` leaf slots.
pub open spec fn tree_node(items: Seq<Seq<u8>>, lc: nat, idx: nat) -> Digest
    decreases 2 * lc - idx,
{
    if idx == 0 {
        zero_hash()
    } else if idx >= lc {
        leaf_slot(items, idx - lc)
    } else {
        node_hash(tree_node(items, lc, 2 * idx), tree_node(items, lc, 2 * idx + 1))
    }
}

/// The node array of the tree over `items`: `2 * leaf_count` entries, the
/// root at index 1, the children of `i` at `2i` and `2i + 1`.
pub open spec fn tree_of(items: Seq<Seq<u8>>) -> Seq<Digest> {
    let lc = leaf_count(items.len());
    Seq::new(2 * lc, |i: int| tree_node(items, lc, i as nat))
}

/// The root committing to `items`.
pub open spec fn root_of(items: Seq<Seq<u8>>) -> Digest {
    tree_of(items)[1]
}

/// The bytes of each item.
pub open spec fn item_bytes(items: Seq<&[u8]>) -> Seq<Seq<u8>> {
    items.map_values(|b: &[u8]| b@)
}

/// The other child of the parent of `idx`.
pub open spec fn sibling(idx: int) -> int {
    if idx % 2 == 0 {
        idx + 1
    } else {
        idx - 1
    }
}

/// The sibling hashes met walking from `idx` up to the root, leaf first.
pub open spec fn path_of(nodes: Seq<Digest>, idx: int) -> Seq<Digest>
    decreases idx,
{
    if idx <= 1 {
        seq![]
    } else {
        seq![nodes[sibling(idx)]] + path_of(nodes, idx / 2)
    }
}

/// `j` is the first slot of the leaf range of `nodes` that holds `target`.
pub open spec fn is_first_leaf_match(nodes: Seq<Digest>, target: Digest, j: int) -> bool {
    let lc = nodes.len() / 2;
    &&& lc <= j < 2 * lc
    &&& nodes[j] == target
    &&& forall|k: int| lc <= k < j ==> nodes[k] != target
}

/// Some slot of the leaf range of `nodes` holds `target`.
pub open spec fn has_leaf(nodes: Seq<Digest>, target: Digest) -> bool {
    let lc = nodes.len() / 2;
    exists|j: int| lc <= j < 2 * lc && nodes[j] == target
}

pub open spec fn first_leaf_index(nodes: Seq<Digest>, target: Digest) -> int {
    choose|j: int| is_first_leaf_match(nodes, target, j)
}

/// The membership proof of `item` in the tree `nodes`: the path from the
/// first leaf slot that holds the item's leaf hash, or none.
pub open spec fn proof_for(nodes: Seq<Digest>, item: Seq<u8>) -> Option<Seq<Digest>> {
    if has_leaf(nodes, leaf_hash(item)) {
        Some(path_of(nodes, first_leaf_index(nodes, leaf_hash(item))))
    } else {
        None
    }
}

/// Folds the proof into `start`, one node hash per sibling, in order.
pub open spec fn replay(start: Digest, proof: Seq<Digest>) -> Digest
    decreases proof.len(),
{
    if proof.len() == 0 {
        start
    } else {
        replay(node_hash(start, proof[0]), proof.drop_first())
    }
}

/// `proof` shows `item` to be a member of the set committed to by `root`.
pub open spec fn verifies(root: Digest, proof: Seq<Digest>, item: Seq<u8>) -> bool {
    replay(leaf_hash(item), proof) == root
}

/// The leaf count is the least power of two that holds `n` items: at least
/// `n` and under `2n`; it is 1 for one item and at least 2 for more.
pub proof fn lemma_leaf_count_bounds(n: nat)
    requires
        n >= 1,
    ensures
        n <= leaf_count(n) < 2 * n,
        n == 1 ==> leaf_count(n) == 1,
        n > 1 ==> leaf_count(n) >= 2,
        n > 1 ==> leaf_count(n) == 2 * leaf_count(((n + 1) / 2) as nat),
    decreases n,
{
    if n > 1 {
        let m = ((n + 1) / 2) as nat;
        lemma_leaf_count_bounds(m);
        assert(leaf_count(n) == 2 * leaf_count(m));
    }
}

/// Where some leaf slot holds `target`, a first one does, and
/// `first_leaf_index` names it.
pub proof fn lemma_first_leaf_exists(nodes: Seq<Digest>, target: Digest, j: int)
    requires
        nodes.len() / 2 <= j < 2 * (nodes.len() / 2),
        nodes[j] == target,
    ensures
        is_first_leaf_match(nodes, target, first_leaf_index(nodes, target)),
    decreases j,
{
    let lc = nodes.len() / 2;
    if forall|k: int| lc <= k < j ==> nodes[k] != target {
        assert(is_first_leaf_match(nodes, target, j));
    } else {
        let k = choose|k: int| lc <= k < j && nodes[k] == target;
        lemma_first_leaf_exists(nodes, target, k);
    }
}

/// Slot `j` is the first leaf slot holding `target` in at most one way.
proof fn lemma_first_leaf_match_unique(nodes: Seq<Digest>, target: Digest, j: int)
    requires
        is_first_leaf_match(nodes, target, j),
    ensures
        has_leaf(nodes, target),
        first_leaf_index(nodes, target) == j,
{
    let k = first_leaf_index(nodes, target);
    assert(is_first_leaf_match(nodes, target, k));
    if k < j {
        assert(nodes[k] != target);
    } else if j < k {
        assert(nodes[j] != target);
    }
}

/// A path to the root, as a Merkle proof: the sibling hashes from a leaf up.
#[derive(Clone, Default, Debug, PartialEq, Eq)]
pub struct MerklePath(pub Vec<Digest>);

impl View for MerklePath {
    type V = Seq<Digest>;

    open spec fn view(&self) -> Seq<Digest> {
        self.0@
    }
}

impl MerklePath {
    pub fn new(path: Vec<Digest>) -> (r: Self)
        ensures
            r@ == path@,
    {
        MerklePath(path)
    }
}

/// A Merkle tree over a set of byte strings: its root, and the whole node
/// array from which membership proofs are read.
#[derive(Clone, Default, Debug, PartialEq, Eq)]
pub struct MerkleAccumulator {
    pub root: Digest,
    pub nodes: Vec<Digest>,
}

impl MerkleAccumulator {
    /// The fixed-layout record that exports the root under `storage`.
    pub fn serialize(&self, storage: u32) -> (r: Vec<u8>)
        ensures
            r@ == commitment_record(self.root, storage),
    {
        let mut serialized: Vec<u8> = Vec::new();
        push_be_u32(&mut serialized, RECORD_MAGIC);
        serialized.push(RECORD_UPDATE_TYPE);
        push_be_u32(&mut serialized, storage);
        let ghost head = serialized@;
        let mut i: usize = 0;
        while i < 32
            invariant
                0 <= i <= 32,
                serialized@ == head + self.root@.take(i as int),
            decreases 32 - i,
        {
            serialized.push(self.root[i]);
            assert(self.root@.take(i + 1) =~= self.root@.take(i as int).push(self.root@[i as int]));
            i = i + 1;
        }
        assert(self.root@.take(32) =~= self.root@);
        serialized
    }

    /// Builds the tree over `items`, in the order given; none for no items.
    pub fn new(items: &[&[u8]]) -> (r: Option<Self>)
        requires
            items@.len() <= usize::MAX / 4,
        ensures
            r is None <==> items@.len() == 0,
            r matches Some(acc) ==> acc.nodes@ == tree_of(item_bytes(items@)) && acc.root == root_of(
                item_bytes(items@),
            ),
    {
        let n = items.len();
        if n == 0 {
            return None;
        }
        let ghost xs = item_bytes(items@);
        let ghost total = leaf_count(n as nat);
        proof {
            lemma_leaf_count_bounds(n as nat);
        }
        let mut lc: usize = 1;
        let mut m: usize = n;
        while m > 1
            invariant
                1 <= m <= n,
                n <= usize::MAX / 4,
                total == leaf_count(n as nat),
                total < 2 * n,
                lc >= 1,
                lc * leaf_count(m as nat) == total,
            decreases m,
        {
            let ghost m2 = ((m + 1) / 2) as nat;
            proof {
                lemma_leaf_count_bounds(m as nat);
                lemma_leaf_count_bounds(m2);
                let a = lc as int;
                let b = leaf_count(m2) as int;
                assert(a * (2 * b) == (2 * a) * b) by (nonlinear_arith);
                assert(2 * a <= (2 * a) * b) by (nonlinear_arith)
                    requires
                        b >= 1,
                        a >= 1,
                ;
            }
            lc = lc * 2;
            m = (m + 1) / 2;
        }
        proof {
            lemma_leaf_count_bounds(1);
            assert(m == 1);
            assert(leaf_count(m as nat) == 1);
            assert(lc * 1 == lc);
        }
        assert(lc == total);
        let width = lc * 2;
        let mut nodes: Vec<Digest> = Vec::new();
        while nodes.len() < lc
            invariant
                nodes@.len() <= lc,
                forall|k: int| 0 <= k < nodes@.len() ==> nodes@[k] == zero_hash(),
            decreases lc - nodes@.len(),
        {
            nodes.push([0u8; 32]);
        }
        let mut i: usize = 0;
        while i < lc
            invariant
                n == items@.len(),
                xs == item_bytes(items@),
                lc == leaf_count(n as nat),
                width == 2 * lc,
                0 <= i <= lc,
                nodes@.len() == lc + i,
                forall|k: int| 0 <= k < lc ==> nodes@[k] == zero_hash(),
                forall|k: int| lc <= k < lc + i ==> nodes@[k] == tree_node(xs, lc as nat, k as nat),
            decreases lc - i,
        {
            let h = if i < n {
                hash_leaf(items[i])
            } else {
                hash_null()
            };
            nodes.push(h);
            i = i + 1;
        }
        let mut k: usize = lc;
        while k > 1
            invariant
                xs == item_bytes(items@),
                lc == leaf_count(n as nat),
                width == 2 * lc,
                1 <= k <= lc,
                nodes@.len() == width,
                nodes@[0] == zero_hash(),
                forall|j: int| k <= j < width ==> nodes@[j] == tree_node(xs, lc as nat, j as nat),
            decreases k,
        {
            k = k - 1;
            let h = hash_node(&nodes[2 * k], &nodes[2 * k + 1]);
            nodes.set(k, h);
        }
        assert(nodes@ =~= tree_of(xs));
        let root = nodes[1];
        Some(MerkleAccumulator { root, nodes })
    }

    /// Builds the tree over the items handed over, in that order.
    pub fn from_set(items: Vec<&[u8]>) -> (r: Option<Self>)
        requires
            items@.len() <= usize::MAX / 4,
        ensures
            r is None <==> items@.len() == 0,
            r matches Some(acc) ==> acc.nodes@ == tree_of(item_bytes(items@)) && acc.root == root_of(
                item_bytes(items@),
            ),
    {
        Self::new(items.as_slice())
    }

    /// The membership proof of `item`, read from the first leaf slot that
    /// holds its leaf hash; none where no leaf slot does.
    pub fn prove(&self, item: &[u8]) -> (r: Option<MerklePath>)
        ensures
            r is None <==> proof_for(self.nodes@, item@) is None,
            r matches Some(p) ==> proof_for(self.nodes@, item@) == Some(p@),
    {
        let target = hash_leaf(item);
        let lc = self.nodes.len() / 2;
        let end = lc + lc;
        let mut j: usize = lc;
        while j < end
            invariant
                lc == self.nodes@.len() / 2,
                end == 2 * lc,
                lc <= j <= 2 * lc,
                target == leaf_hash(item@),
                forall|k: int| lc <= k < j ==> self.nodes@[k] != target,
            decreases end - j,
        {
            if hash_eq(&self.nodes[j], &target) {
                proof {
                    lemma_first_leaf_match_unique(self.nodes@, target, j as int);
                }
                return Some(self.find_path(j));
            }
            j = j + 1;
        }
        None
    }

    /// The sibling hashes from slot `index` up to the root.
    fn find_path(&self, index: usize) -> (r: MerklePath)
        requires
            index < 2 * (self.nodes@.len() / 2),
        ensures
            r@ == path_of(self.nodes@, index as int),
    {
        let ghost start = index as int;
        let mut index = index;
        let mut path: Vec<Digest> = Vec::new();
        while index > 1
            invariant
                index < 2 * (self.nodes@.len() / 2),
                path@ + path_of(self.nodes@, index as int) == path_of(self.nodes@, start),
            decreases index,
        {
            let sib = if index % 2 == 0 {
                index + 1
            } else {
                index - 1
            };
            let ghost rest = path_of(self.nodes@, (index / 2) as int);
            let ghost before = path@;
            assert(path_of(self.nodes@, index as int) == seq![self.nodes@[sib as int]] + rest);
            path.push(self.nodes[sib]);
            assert(path@ + rest =~= before + (seq![self.nodes@[sib as int]] + rest));
            index = index / 2;
        }
        assert(path@ + path_of(self.nodes@, index as int) =~= path@);
        MerklePath::new(path)
    }

    /// Whether `proof` replays the leaf hash of `item` to this tree's root.
    pub fn check(&self, proof: MerklePath, item: &[u8]) -> (r: bool)
        ensures
            r == verifies(self.root, proof@, item@),
    {
        let mut current = hash_leaf(item);
        let mut i: usize = 0;
        assert(proof@.skip(0) =~= proof@);
        while i < proof.0.len()
            invariant
                0 <= i <= proof@.len(),
                replay(current, proof@.skip(i as int)) == replay(leaf_hash(item@), proof@),
            decreases proof@.len() - i,
        {
            assert(proof@.skip(i as int).drop_first() =~= proof@.skip(i + 1));
            current = hash_node(&current, &proof.0[i]);
            i = i + 1;
        }
        hash_eq(&current, &self.root)
    }
}

} // verus!
