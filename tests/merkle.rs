use std::collections::BTreeSet;
use std::mem::size_of;

use borsh::BorshSerialize;
use merkle_accumulator::hashing::{hash_leaf, hash_node, hash_null, Digest};
use merkle_accumulator::merkle::{MerkleAccumulator, MerklePath};

#[test]
fn test_merkle() {
    let mut set: BTreeSet<&[u8]> = BTreeSet::new();

    // id, price, price_expo, ema, ema_expo
    let item_a = BorshSerialize::try_to_vec(&(1u64, 100u64, 2u64, 50u64, 1u64)).unwrap();
    // price_expo, price, id
    let item_b = BorshSerialize::try_to_vec(&(2u64, 200u64, 1u64)).unwrap();
    let item_c = 2usize.to_be_bytes();
    let item_d = 88usize.to_be_bytes();

    set.insert(&item_a);
    set.insert(&item_b);
    set.insert(&item_c);

    let accumulator = MerkleAccumulator::from_set(set.into_iter().collect()).unwrap();
    let proof = accumulator.prove(&item_a).unwrap();

    assert!(accumulator.check(proof, &item_a));
    let proof = accumulator.prove(&item_a).unwrap();
    assert_eq!(size_of::<Digest>(), 32);

    assert!(!accumulator.check(proof, &item_d));
}

#[test]
fn test_merkle_default_proof_fails() {
    let mut set: BTreeSet<&[u8]> = BTreeSet::new();

    let item_a = 88usize.to_be_bytes();
    let item_b = 99usize.to_be_bytes();
    set.insert(&item_a);
    set.insert(&item_b);

    let accumulator = MerkleAccumulator::from_set(set.into_iter().collect()).unwrap();
    let proof = MerklePath::default();
    assert!(!accumulator.check(proof, &item_a));
    let proof = MerklePath(vec![Default::default()]);
    assert!(!accumulator.check(proof, &item_a));
}

#[test]
fn test_corrupted_tree_proofs() {
    let mut set: BTreeSet<&[u8]> = BTreeSet::new();

    let item_a = 88usize.to_be_bytes();
    let item_b = 99usize.to_be_bytes();
    let item_c = 100usize.to_be_bytes();
    let item_d = 101usize.to_be_bytes();
    set.insert(&item_a);
    set.insert(&item_b);
    set.insert(&item_c);
    set.insert(&item_d);

    let accumulator = MerkleAccumulator::from_set(set.into_iter().collect()).unwrap();

    for item in [item_a, item_b, item_c, item_d].iter() {
        let proof = accumulator.prove(item).unwrap();
        for (i, _) in proof.0.iter().enumerate() {
            let mut corrupted_proof = proof.clone();
            corrupted_proof.0[i] = Default::default();
            assert!(!accumulator.check(corrupted_proof, item));
        }
    }
}

#[test]
#[should_panic]
fn test_merkle_second_preimage_attack() {
    let mut set: BTreeSet<&[u8]> = BTreeSet::new();

    let item_a = 81usize.to_be_bytes();
    let item_b = 99usize.to_be_bytes();
    let item_c = 100usize.to_be_bytes();
    let item_d = 101usize.to_be_bytes();
    set.insert(&item_a);
    set.insert(&item_b);
    set.insert(&item_c);
    set.insert(&item_d);

    let accumulator = MerkleAccumulator::from_set(set.into_iter().collect()).unwrap();
    let proof = accumulator.prove(&item_a).unwrap();
    assert!(accumulator.check(proof.clone(), &item_a));

    // The two subtree hashes become the leaves of a two-leaf tree under the
    // same root.
    let faulty_accumulator = MerkleAccumulator {
        root: accumulator.root,
        nodes: vec![
            accumulator.nodes[0],
            accumulator.nodes[1],
            accumulator.nodes[2],
            accumulator.nodes[3],
        ],
    };

    let fake_leaf_a = &[hash_leaf(&item_b), hash_leaf(&item_a)].concat();

    assert_eq!(hash_leaf(fake_leaf_a), accumulator.nodes[2]);

    let proof = faulty_accumulator.prove(fake_leaf_a).unwrap();
    assert!(faulty_accumulator.check(proof, fake_leaf_a));
}

fn to_hex(d: &[u8]) -> String {
    d.iter().map(|b| format!("{:02x}", b)).collect()
}

fn build(items: &[Vec<u8>]) -> MerkleAccumulator {
    let refs: Vec<&[u8]> = items.iter().map(|v| v.as_slice()).collect();
    MerkleAccumulator::new(&refs).unwrap()
}

#[test]
fn leaf_hash_of_empty_item_is_keccak_of_prefix_byte() {
    assert_eq!(
        to_hex(&hash_leaf(&[])),
        "bc36789e7a1e281436464229828f817d6612f7b477d66591ff96a9e064bcc98a"
    );
}

#[test]
fn null_hash_differs_from_leaf_hashes() {
    assert_ne!(hash_null(), hash_leaf(&[]));
    assert_ne!(hash_null(), hash_leaf(&[2]));
}

#[test]
fn node_hash_ignores_child_order() {
    let a = hash_leaf(b"a");
    let b = hash_leaf(b"b");
    assert_eq!(hash_node(&a, &b), hash_node(&b, &a));
    assert_ne!(hash_node(&a, &b), hash_node(&a, &a));
}

#[test]
fn empty_input_builds_nothing() {
    assert!(MerkleAccumulator::new(&[]).is_none());
    assert!(MerkleAccumulator::from_set(Vec::new()).is_none());
}

#[test]
fn four_items_give_depth_two() {
    let items: Vec<Vec<u8>> = vec![b"A".to_vec(), b"B".to_vec(), b"C".to_vec(), b"D".to_vec()];
    let acc = build(&items);
    assert_eq!(acc.nodes.len(), 8);
    let leaves: Vec<Digest> = items.iter().map(|i| hash_leaf(i)).collect();
    assert_eq!(&acc.nodes[4..8], &leaves[..]);
    let left = hash_node(&leaves[0], &leaves[1]);
    let right = hash_node(&leaves[2], &leaves[3]);
    assert_eq!(acc.root, hash_node(&left, &right));
    assert_eq!(acc.nodes[1], acc.root);

    let proof = acc.prove(b"A").unwrap();
    assert_eq!(proof.0.len(), 2);
    assert_eq!(proof.0, vec![leaves[1], right]);
    let step = hash_node(&hash_leaf(b"A"), &proof.0[0]);
    assert_eq!(hash_node(&step, &proof.0[1]), acc.root);
    assert!(acc.check(proof, b"A"));
}

#[test]
fn singleton_has_empty_proof() {
    let items: Vec<Vec<u8>> = vec![b"A".to_vec()];
    let acc = build(&items);
    assert_eq!(acc.nodes.len(), 2);
    assert_eq!(acc.root, hash_leaf(b"A"));
    let proof = acc.prove(b"A").unwrap();
    assert!(proof.0.is_empty());
    assert!(acc.check(MerklePath::new(vec![]), b"A"));
    assert!(acc.prove(b"B").is_none());
}

#[test]
fn padding_slots_hold_null_hash() {
    let items: Vec<Vec<u8>> = vec![vec![1], vec![2], vec![3]];
    let acc = build(&items);
    assert_eq!(acc.nodes.len(), 8);
    assert_eq!(acc.nodes[7], hash_null());
    assert_eq!(acc.nodes[0], [0u8; 32]);
    let five: Vec<Vec<u8>> = (0u8..5).map(|i| vec![i]).collect();
    let acc = build(&five);
    assert_eq!(acc.nodes.len(), 16);
    for slot in 13..16 {
        assert_eq!(acc.nodes[slot], hash_null());
    }
}

#[test]
fn non_member_gets_no_proof() {
    let items: Vec<Vec<u8>> = vec![vec![1], vec![2], vec![3]];
    let acc = build(&items);
    assert!(acc.prove(&[4]).is_none());
    assert!(acc.prove(&[]).is_none());
}

#[test]
fn every_member_round_trips() {
    for n in 1u8..=17 {
        let items: Vec<Vec<u8>> = (0..n).map(|i| vec![i, i.wrapping_mul(7)]).collect();
        let acc = build(&items);
        for item in items.iter() {
            let proof = acc.prove(item).unwrap();
            assert!(acc.check(proof.clone(), item));
            if n > 1 {
                assert!(!acc.check(MerklePath::default(), item));
            }
            for i in 0..proof.0.len() {
                let mut forged = proof.clone();
                forged.0[i] = [0u8; 32];
                assert!(!acc.check(forged, item));
            }
        }
        assert!(!acc.check(MerklePath::default(), &[200]));
    }
}

#[test]
fn proof_does_not_verify_another_item() {
    let items: Vec<Vec<u8>> = vec![vec![1], vec![2], vec![3], vec![4]];
    let acc = build(&items);
    let proof = acc.prove(&[1]).unwrap();
    assert!(!acc.check(proof, &[3]));
}

#[test]
fn record_layout_with_id_seven() {
    let items: Vec<Vec<u8>> = vec![b"A".to_vec(), b"B".to_vec()];
    let acc = build(&items);
    let record = acc.serialize(7);
    assert_eq!(record.len(), 41);
    assert_eq!(&record[0..4], &[0x41, 0x55, 0x57, 0x56]);
    assert_eq!(record[4], 0x00);
    assert_eq!(&record[5..9], &[0x00, 0x00, 0x00, 0x07]);
    assert_eq!(&record[9..41], &acc.root[..]);
}

#[test]
fn record_id_is_big_endian() {
    let acc = build(&[vec![9]]);
    let record = acc.serialize(0x0102_0304);
    assert_eq!(&record[5..9], &[0x01, 0x02, 0x03, 0x04]);
}
