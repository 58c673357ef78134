//! Domain-separated hashing over Keccak-256: leaves, internal nodes and
//! padding slots are hashed under distinct one-byte prefixes.

use vstd::prelude::*;

verus! {

/// A 32-byte digest.
pub type Digest = [u8; 32];

pub const LEAF_PREFIX: u8 = 0;

pub const NODE_PREFIX: u8 = 1;

pub const NULL_PREFIX: u8 = 2;

/// The Keccak-256 digest of a byte string.
pub uninterp spec fn keccak256_of(data: Seq<u8>) -> [u8; 32];

/// Relies on `sha3::Keccak256` (through `digest::Digest::digest`): the
/// digest is a function of the input bytes alone.
#[verifier::external_body]
fn keccak256(data: &[u8]) -> (r: Digest)
    ensures
        r == keccak256_of(data@),
{
    <sha3::Keccak256 as sha3::Digest>::digest(data).into()
}

/// Lexicographic order on byte strings (a proper prefix comes first).
pub open spec fn bytes_le(a: Seq<u8>, b: Seq<u8>) -> bool
    decreases a.len(),
{
    if a.len() == 0 {
        true
    } else if b.len() == 0 {
        false
    } else if a[0] != b[0] {
        a[0] < b[0]
    } else {
        bytes_le(a.drop_first(), b.drop_first())
    }
}

/// What is hashed for a leaf: the leaf prefix, then the item.
pub open spec fn leaf_preimage(item: Seq<u8>) -> Seq<u8> {
    seq![LEAF_PREFIX] + item
}

/// What is hashed for an internal node: the node prefix, then the smaller
/// child hash, then the larger one.
pub open spec fn node_preimage(l: Digest, r: Digest) -> Seq<u8> {
    if bytes_le(l@, r@) {
        seq![NODE_PREFIX] + l@ + r@
    } else {
        seq![NODE_PREFIX] + r@ + l@
    }
}

/// What is hashed for a padding slot: the null prefix alone.
pub open spec fn null_preimage() -> Seq<u8> {
    seq![NULL_PREFIX]
}

pub open spec fn leaf_hash(item: Seq<u8>) -> Digest {
    keccak256_of(leaf_preimage(item))
}

pub open spec fn node_hash(l: Digest, r: Digest) -> Digest {
    keccak256_of(node_preimage(l, r))
}

pub open spec fn null_hash() -> Digest {
    keccak256_of(null_preimage())
}

/// Keccak-256 shows no collision between the two inputs.
pub open spec fn no_collision(a: Seq<u8>, b: Seq<u8>) -> bool {
    keccak256_of(a) == keccak256_of(b) ==> a == b
}

/// Two byte strings of one length are ordered one way or the other, and
/// both ways only when they are equal.
pub proof fn lemma_bytes_le_total(a: Seq<u8>, b: Seq<u8>)
    requires
        a.len() == b.len(),
    ensures
        bytes_le(a, b) || bytes_le(b, a),
        bytes_le(a, b) && bytes_le(b, a) ==> a == b,
    decreases a.len(),
{
    if a.len() > 0 && a[0] == b[0] {
        lemma_bytes_le_total(a.drop_first(), b.drop_first());
        if a.drop_first() == b.drop_first() {
            assert forall|i: int| 0 <= i < a.len() implies a[i] == b[i] by {
                if i > 0 {
                    assert(a[i] == a.drop_first()[i - 1]);
                }
            }
            assert(a =~= b);
        }
    }
    if a.len() == 0 {
        assert(a =~= b);
    }
}

/// Hashing two children does not depend on which one is the left.
pub proof fn lemma_node_hash_symmetric(l: Digest, r: Digest)
    ensures
        node_preimage(l, r) == node_preimage(r, l),
        node_hash(l, r) == node_hash(r, l),
{
    lemma_bytes_le_total(l@, r@);
    if bytes_le(l@, r@) && bytes_le(r@, l@) {
        assert(l =~= r);
    }
}

/// The node preimage determines the unordered pair of children: with one
/// child in common, the other children are equal.
pub proof fn lemma_node_preimage_injective(a: Digest, b: Digest, s: Digest)
    requires
        node_preimage(a, s) == node_preimage(b, s),
    ensures
        a == b,
{
    let pa = node_preimage(a, s);
    let pb = node_preimage(b, s);
    assert(pa.subrange(1, 33) == pb.subrange(1, 33));
    assert(pa.subrange(33, 65) == pb.subrange(33, 65));
    let (a1, a2) = if bytes_le(a@, s@) { (a@, s@) } else { (s@, a@) };
    let (b1, b2) = if bytes_le(b@, s@) { (b@, s@) } else { (s@, b@) };
    assert(pa.subrange(1, 33) =~= a1);
    assert(pa.subrange(33, 65) =~= a2);
    assert(pb.subrange(1, 33) =~= b1);
    assert(pb.subrange(33, 65) =~= b2);
    assert(a@ == b@);
    assert(a =~= b);
}

/// The three roles hash inputs that differ in their first byte.
pub proof fn lemma_preimages_separated(item: Seq<u8>, l: Digest, r: Digest)
    ensures
        leaf_preimage(item) != node_preimage(l, r),
        leaf_preimage(item) != null_preimage(),
        node_preimage(l, r) != null_preimage(),
{
    assert(leaf_preimage(item)[0] == LEAF_PREFIX);
    assert(node_preimage(l, r)[0] == NODE_PREFIX);
    assert(null_preimage()[0] == NULL_PREFIX);
}

/// Whether `a` orders before or equal to `b`, byte by byte.
pub fn hash_le(a: &Digest, b: &Digest) -> (r: bool)
    ensures
        r == bytes_le(a@, b@),
{
    let mut i: usize = 0;
    assert(a@.skip(0) =~= a@);
    assert(b@.skip(0) =~= b@);
    while i < 32
        invariant
            0 <= i <= 32,
            bytes_le(a@, b@) == bytes_le(a@.skip(i as int), b@.skip(i as int)),
        decreases 32 - i,
    {
        assert(a@.skip(i as int).drop_first() =~= a@.skip(i + 1));
        assert(b@.skip(i as int).drop_first() =~= b@.skip(i + 1));
        if a[i] != b[i] {
            return a[i] < b[i];
        }
        i = i + 1;
    }
    true
}

/// Whether two digests are equal, byte by byte.
pub fn hash_eq(a: &Digest, b: &Digest) -> (r: bool)
    ensures
        r == (a == b),
{
    let mut i: usize = 0;
    while i < 32
        invariant
            0 <= i <= 32,
            forall|j: int| 0 <= j < i ==> a[j] == b[j],
        decreases 32 - i,
    {
        if a[i] != b[i] {
            return false;
        }
        i = i + 1;
    }
    assert(a =~= b);
    true
}

/// The hash of a leaf holding `leaf`.
pub fn hash_leaf(leaf: &[u8]) -> (h: Digest)
    ensures
        h == leaf_hash(leaf@),
{
    let mut data: Vec<u8> = Vec::new();
    data.push(LEAF_PREFIX);
    let mut i: usize = 0;
    while i < leaf.len()
        invariant
            0 <= i <= leaf@.len(),
            data@ == seq![LEAF_PREFIX] + leaf@.take(i as int),
        decreases leaf@.len() - i,
    {
        data.push(leaf[i]);
        assert(leaf@.take(i + 1) =~= leaf@.take(i as int).push(leaf@[i as int]));
        assert(data@ =~= seq![LEAF_PREFIX] + leaf@.take(i + 1));
        i = i + 1;
    }
    assert(leaf@.take(i as int) =~= leaf@);
    keccak256(data.as_slice())
}

/// The hash of an internal node over two children, in either order.
pub fn hash_node(l: &Digest, r: &Digest) -> (h: Digest)
    ensures
        h == node_hash(*l, *r),
{
    let (lo, hi) = if hash_le(l, r) { (l, r) } else { (r, l) };
    let mut data: Vec<u8> = Vec::new();
    data.push(NODE_PREFIX);
    let mut i: usize = 0;
    while i < 32
        invariant
            0 <= i <= 32,
            data@ == seq![NODE_PREFIX] + lo@.take(i as int),
        decreases 32 - i,
    {
        data.push(lo[i]);
        assert(lo@.take(i + 1) =~= lo@.take(i as int).push(lo@[i as int]));
        i = i + 1;
    }
    assert(lo@.take(32) =~= lo@);
    let mut j: usize = 0;
    while j < 32
        invariant
            0 <= j <= 32,
            data@ == seq![NODE_PREFIX] + lo@ + hi@.take(j as int),
        decreases 32 - j,
    {
        data.push(hi[j]);
        assert(hi@.take(j + 1) =~= hi@.take(j as int).push(hi@[j as int]));
        j = j + 1;
    }
    assert(hi@.take(32) =~= hi@);
    keccak256(data.as_slice())
}

/// The hash that fills a padding slot.
pub fn hash_null() -> (h: Digest)
    ensures
        h == null_hash(),
{
    let mut data: Vec<u8> = Vec::new();
    data.push(NULL_PREFIX);
    assert(data@ =~= null_preimage());
    keccak256(data.as_slice())
}

} // verus!
