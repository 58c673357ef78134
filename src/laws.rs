//! What holds of building, proving and checking taken together.

use vstd::prelude::*;

use crate::hashing::{
    Digest, leaf_hash, leaf_preimage, lemma_node_hash_symmetric, lemma_node_preimage_injective,
    lemma_preimages_separated, no_collision, node_hash, node_preimage, null_preimage,
};
use crate::merkle::{
    first_leaf_index, has_leaf, is_first_leaf_match, leaf_count, lemma_first_leaf_exists,
    lemma_leaf_count_bounds, path_of, proof_for, replay, root_of, sibling, tree_of, verifies,
    zero_hash,
};

verus! {

/// Walking a tree's own path from any slot, hashing in each sibling,
/// reaches the root.
proof fn lemma_path_replays_to_root(items: Seq<Seq<u8>>, j: int)
    requires
        items.len() >= 1,
        1 <= j < 2 * leaf_count(items.len()),
    ensures
        replay(tree_of(items)[j], path_of(tree_of(items), j)) == tree_of(items)[1],
    decreases j,
{
    let t = tree_of(items);
    if j > 1 {
        let p = j / 2;
        let s = sibling(j);
        lemma_path_replays_to_root(items, p);
        assert(t[p] == node_hash(t[2 * p], t[2 * p + 1]));
        lemma_node_hash_symmetric(t[j], t[s]);
        assert(node_hash(t[j], t[s]) == t[p]);
        let path = path_of(t, j);
        assert(path.drop_first() =~= path_of(t, p));
    }
}

/// Every member of a nonempty set has a proof, and that proof verifies
/// against the set's root.
pub proof fn lemma_round_trip(items: Seq<Seq<u8>>, x: Seq<u8>)
    requires
        items.contains(x),
    ensures
        proof_for(tree_of(items), x) is Some,
        verifies(root_of(items), proof_for(tree_of(items), x)->0, x),
{
    let t = tree_of(items);
    let lc = leaf_count(items.len());
    let target = leaf_hash(x);
    lemma_leaf_count_bounds(items.len());
    let i = choose|i: int| 0 <= i < items.len() && items[i] == x;
    assert(t[lc + i] == target);
    lemma_first_leaf_exists(t, target, lc + i);
    let j = first_leaf_index(t, target);
    assert(has_leaf(t, target));
    lemma_path_replays_to_root(items, j);
}

/// An item outside the set gets no proof, as long as Keccak-256 shows no
/// collision between its leaf input and the leaf inputs of the members or
/// the padding input.
pub proof fn lemma_non_member_rejected(items: Seq<Seq<u8>>, x: Seq<u8>)
    requires
        items.len() >= 1,
        !items.contains(x),
        forall|k: int|
            0 <= k < items.len() ==> no_collision(leaf_preimage(x), #[trigger] leaf_preimage(items[k])),
        items.len() < leaf_count(items.len()) ==> no_collision(leaf_preimage(x), null_preimage()),
    ensures
        proof_for(tree_of(items), x) is None,
{
    let t = tree_of(items);
    let lc = leaf_count(items.len());
    let target = leaf_hash(x);
    lemma_leaf_count_bounds(items.len());
    if has_leaf(t, target) {
        let j = choose|j: int| lc <= j < 2 * lc && t[j] == target;
        let k = j - lc;
        if k < items.len() {
            assert(no_collision(leaf_preimage(x), leaf_preimage(items[k])));
            assert(leaf_preimage(x).drop_first() =~= x);
            assert(leaf_preimage(items[k]).drop_first() =~= items[k]);
            assert(items.contains(x));
        } else {
            lemma_preimages_separated(x, t[0], t[0]);
        }
    }
}

/// Hashing a sibling onto a replay extends it by one step.
proof fn lemma_replay_push(start: Digest, proof: Seq<Digest>, s: Digest)
    ensures
        replay(start, proof.push(s)) == node_hash(replay(start, proof), s),
    decreases proof.len(),
{
    if proof.len() == 0 {
        assert(proof.push(s).drop_first() =~= proof);
        assert(replay(node_hash(start, s), proof) == node_hash(start, s));
    } else {
        assert(proof.push(s)[0] == proof[0]);
        assert(proof.push(s).drop_first() =~= proof.drop_first().push(s));
        lemma_replay_push(node_hash(start, proof[0]), proof.drop_first(), s);
    }
}

/// Step `k` of replaying `forged` and of replaying `proof` from `start`
/// hashes inputs on which Keccak-256 shows no collision.
pub open spec fn step_collision_free(start: Digest, proof: Seq<Digest>, forged: Seq<Digest>, k: int) -> bool {
    no_collision(
        node_preimage(replay(start, forged.take(k)), forged[k]),
        node_preimage(replay(start, proof.take(k)), proof[k]),
    )
}

/// Two proofs that differ in position `i` alone replay, from the same start,
/// to different values after every later step, unless a step collides.
proof fn lemma_replay_diverges(start: Digest, proof: Seq<Digest>, forged: Seq<Digest>, i: int, k: int)
    requires
        0 <= i < proof.len(),
        forged.len() == proof.len(),
        forall|j: int| 0 <= j < proof.len() && j != i ==> forged[j] == proof[j],
        forged[i] != proof[i],
        i < k <= proof.len(),
        forall|j: int| i <= j < proof.len() ==> #[trigger] step_collision_free(start, proof, forged, j),
    ensures
        replay(start, forged.take(k)) != replay(start, proof.take(k)),
    decreases k,
{
    let cp = replay(start, proof.take(k - 1));
    let cf = replay(start, forged.take(k - 1));
    assert(proof.take(k) =~= proof.take(k - 1).push(proof[k - 1]));
    assert(forged.take(k) =~= forged.take(k - 1).push(forged[k - 1]));
    lemma_replay_push(start, proof.take(k - 1), proof[k - 1]);
    lemma_replay_push(start, forged.take(k - 1), forged[k - 1]);
    assert(step_collision_free(start, proof, forged, k - 1));
    if k - 1 == i {
        assert(forged.take(i) =~= proof.take(i));
        if node_hash(cf, forged[i]) == node_hash(cp, proof[i]) {
            lemma_node_hash_symmetric(cp, forged[i]);
            lemma_node_hash_symmetric(cp, proof[i]);
            lemma_node_preimage_injective(forged[i], proof[i], cp);
        }
    } else {
        lemma_replay_diverges(start, proof, forged, i, k - 1);
        if node_hash(cf, forged[k - 1]) == node_hash(cp, proof[k - 1]) {
            lemma_node_preimage_injective(cf, cp, proof[k - 1]);
        }
    }
}

/// In a set of two or more, a member's proof with one sibling replaced by
/// the all-zero digest no longer verifies, unless that sibling already was
/// all zeros or a replay step collides.
pub proof fn lemma_tamper_detected(items: Seq<Seq<u8>>, x: Seq<u8>, i: int)
    requires
        items.len() > 1,
        items.contains(x),
        0 <= i < (proof_for(tree_of(items), x)->0).len(),
        (proof_for(tree_of(items), x)->0)[i] != zero_hash(),
        forall|k: int|
            i <= k < (proof_for(tree_of(items), x)->0).len() ==> #[trigger] step_collision_free(
                leaf_hash(x),
                proof_for(tree_of(items), x)->0,
                (proof_for(tree_of(items), x)->0).update(i, zero_hash()),
                k,
            ),
    ensures
        !verifies(root_of(items), (proof_for(tree_of(items), x)->0).update(i, zero_hash()), x),
{
    let p = proof_for(tree_of(items), x)->0;
    let forged = p.update(i, zero_hash());
    lemma_round_trip(items, x);
    lemma_replay_diverges(leaf_hash(x), p, forged, i, p.len() as int);
    assert(p.take(p.len() as int) =~= p);
    assert(forged.take(p.len() as int) =~= forged);
}

/// In a set of two or more, the empty proof verifies no item, unless
/// Keccak-256 collides between the item's leaf input and the root's input.
pub proof fn lemma_empty_proof_rejected(items: Seq<Seq<u8>>, x: Seq<u8>)
    requires
        items.len() > 1,
        no_collision(leaf_preimage(x), node_preimage(tree_of(items)[2], tree_of(items)[3])),
    ensures
        !verifies(root_of(items), seq![], x),
{
    let t = tree_of(items);
    lemma_leaf_count_bounds(items.len());
    assert(t[1] == node_hash(t[2], t[3]));
    lemma_preimages_separated(x, t[2], t[3]);
}

/// A one-item set commits to the item's leaf hash, its proof is empty, and
/// the empty proof verifies it.
pub proof fn lemma_singleton(x: Seq<u8>)
    ensures
        root_of(seq![x]) == leaf_hash(x),
        proof_for(tree_of(seq![x]), x) == Some(Seq::<Digest>::empty()),
        verifies(root_of(seq![x]), seq![], x),
{
    let items = seq![x];
    let t = tree_of(items);
    lemma_leaf_count_bounds(1);
    assert(t[1] == leaf_hash(x));
    assert(is_first_leaf_match(t, leaf_hash(x), 1));
    lemma_first_leaf_exists(t, leaf_hash(x), 1);
    assert(path_of(t, 1) =~= Seq::<Digest>::empty());
}

/// No leaf hash equals an internal node of a tree, unless Keccak-256
/// collides between the leaf input and that node's input.
pub proof fn lemma_leaf_is_no_internal_node(items: Seq<Seq<u8>>, f: Seq<u8>, j: int)
    requires
        1 <= j < leaf_count(items.len()),
        no_collision(leaf_preimage(f), node_preimage(tree_of(items)[2 * j], tree_of(items)[2 * j + 1])),
    ensures
        leaf_hash(f) != tree_of(items)[j],
{
    let t = tree_of(items);
    assert(t[j] == node_hash(t[2 * j], t[2 * j + 1]));
    lemma_preimages_separated(f, t[2 * j], t[2 * j + 1]);
}

/// Cutting the leaves off a four-item tree leaves the two subtree hashes as
/// the leaves of a two-leaf tree under the same root; no item gets a proof
/// there, whatever its bytes (the concatenated child hashes included),
/// unless Keccak-256 collides between its leaf input and a subtree's input.
pub proof fn lemma_second_preimage_resisted(items: Seq<Seq<u8>>, f: Seq<u8>)
    requires
        items.len() == 4,
        no_collision(leaf_preimage(f), node_preimage(tree_of(items)[4], tree_of(items)[5])),
        no_collision(leaf_preimage(f), node_preimage(tree_of(items)[6], tree_of(items)[7])),
    ensures
        leaf_hash(f) != tree_of(items)[2],
        leaf_hash(f) != tree_of(items)[3],
        proof_for(tree_of(items).take(4), f) is None,
{
    lemma_leaf_count_bounds(4);
    lemma_leaf_count_bounds(2);
    lemma_leaf_count_bounds(1);
    assert(leaf_count(4) == 4);
    lemma_leaf_is_no_internal_node(items, f, 2);
    lemma_leaf_is_no_internal_node(items, f, 3);
    let cut = tree_of(items).take(4);
    assert(!has_leaf(cut, leaf_hash(f)));
}

} // verus!
