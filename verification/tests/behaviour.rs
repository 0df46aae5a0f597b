use ark_bn254::Fr;
use ark_ff::{BigInt, BigInteger, PrimeField};
use light_poseidon::{Poseidon, PoseidonHasher};
use poseidon_merkle::{
    get_empty_inner_hash, get_empty_leaf_hash, FieldElement, Hasher, MerkleProof, Node, NodeType,
    PoseidonMerkleError, ProofError, SparseMerkleTree,
};
use std::str::FromStr;

fn to_fr(x: &FieldElement) -> Fr {
    Fr::from(BigInt::new(x.to_limbs()))
}

fn from_fr(x: Fr) -> FieldElement {
    FieldElement::from_limbs(x.into_bigint().0).unwrap()
}

fn poseidon_pair(left: &FieldElement, right: &FieldElement) -> FieldElement {
    let mut sponge = Poseidon::<Fr>::new_circom(2).unwrap();
    from_fr(sponge.hash(&[to_fr(left), to_fr(right)]).unwrap())
}

fn path_of(bits: &[bool]) -> FieldElement {
    FieldElement::from_bits_le(bits).unwrap()
}

fn collect(tree: &SparseMerkleTree) -> Vec<FieldElement> {
    let mut walk = tree.iter();
    let mut values = Vec::new();
    while let Some(value) = walk.next() {
        values.push(value);
    }
    values
}

#[test]
fn empty_hashes_are_the_canonical_decimals() {
    let leaf = Fr::from_str(
        "19014214495641488759237505126948346942972912379615652741039992445865937985820",
    )
    .unwrap();
    let inner = Fr::from_str(
        "10447686833432518214645507207530993719569269870494442919228205482093666444588",
    )
    .unwrap();
    assert_eq!(to_fr(&get_empty_leaf_hash()), leaf);
    assert_eq!(to_fr(&get_empty_inner_hash()), inner);
}

#[test]
fn empty_leaf_hash_is_poseidon_of_zero() {
    let mut hasher = Hasher::new_circom(1).unwrap();
    let digest = hasher.hash(&[FieldElement::zero()]).unwrap();
    assert_eq!(digest, get_empty_leaf_hash());
}

#[test]
fn empty_inner_hash_is_poseidon_of_two_empty_leaves() {
    let leaf = get_empty_leaf_hash();
    assert_eq!(poseidon_pair(&leaf, &leaf), get_empty_inner_hash());
    let zero = FieldElement::zero();
    assert_ne!(poseidon_pair(&zero, &zero), get_empty_inner_hash());
}

#[test]
fn field_element_limbs_round_trip() {
    let limbs = [5u64, 6, 7, 8];
    let x = FieldElement::from_limbs(limbs).unwrap();
    assert_eq!(x.to_limbs(), limbs);
    assert_eq!(FieldElement::from_u64(77).to_limbs(), [77u64, 0, 0, 0]);
    assert_eq!(FieldElement::zero().to_limbs(), [0u64; 4]);
    assert_eq!(to_fr(&FieldElement::from_u64(77)), Fr::from(77u64));
}

#[test]
fn field_element_refuses_the_modulus() {
    let modulus = [
        0x43e1f593f0000001u64,
        0x2833e84879b97091,
        0xb85045b68181585d,
        0x30644e72e131a029,
    ];
    assert!(FieldElement::from_limbs(modulus).is_none());
    let below = [modulus[0] - 1, modulus[1], modulus[2], modulus[3]];
    assert!(FieldElement::from_limbs(below).is_some());
    assert!(FieldElement::from_limbs([0, 0, 0, modulus[3] + 1]).is_none());
    assert!(FieldElement::from_limbs([u64::MAX; 4]).is_none());
}

#[test]
fn field_element_equality_is_by_value() {
    assert_eq!(FieldElement::from_u64(0), FieldElement::zero());
    assert_ne!(FieldElement::from_u64(1), FieldElement::zero());
    assert_ne!(
        FieldElement::from_limbs([0, 1, 0, 0]).unwrap(),
        FieldElement::from_limbs([1, 0, 0, 0]).unwrap()
    );
}

#[test]
fn bits_of_a_field_element() {
    let x = FieldElement::from_u64(0b1011);
    let bits = x.to_bits_le();
    assert_eq!(bits.len(), 256);
    assert_eq!(&bits[..5], &[true, true, false, true, false]);
    assert!(bits[5..].iter().all(|b| !b));
    let high = FieldElement::from_limbs([0, 0, 1, 0]).unwrap();
    assert!(high.bit(128));
    assert!(!high.bit(127));
    assert!(!high.bit(129));
    assert!(!high.bit(256));
    assert!(!high.bit(100_000));
    assert_eq!(high.to_bits_le(), to_fr(&high).into_bigint().to_bits_le());
}

#[test]
fn bits_spell_a_field_element() {
    assert_eq!(
        FieldElement::from_bits_le(&[true, true, false, true]).unwrap(),
        FieldElement::from_u64(11)
    );
    assert_eq!(FieldElement::from_bits_le(&[]).unwrap(), FieldElement::zero());
    let mut sixty_five = vec![false; 65];
    sixty_five[64] = true;
    assert_eq!(
        FieldElement::from_bits_le(&sixty_five).unwrap().to_limbs(),
        [0u64, 1, 0, 0]
    );
}

#[test]
fn bits_that_spell_no_field_element_are_refused() {
    assert!(FieldElement::from_bits_le(&[true; 256]).is_none());
    assert!(FieldElement::from_bits_le(&[true; 254]).is_none());
    assert!(FieldElement::from_bits_le(&[true; 253]).is_some());
    let mut long = vec![false; 300];
    long[0] = true;
    assert_eq!(
        FieldElement::from_bits_le(&long).unwrap(),
        FieldElement::from_u64(1)
    );
    long[256] = true;
    assert!(FieldElement::from_bits_le(&long).is_none());
    long[256] = false;
    long[299] = true;
    assert!(FieldElement::from_bits_le(&long).is_none());
}

#[test]
fn merkle_path_of_too_many_bits_is_refused() {
    let tree = SparseMerkleTree::new(3).unwrap();
    let result = tree.get_merkle_path(&[true; 256]);
    assert!(matches!(
        result,
        Err(PoseidonMerkleError::InvalidBitsPathHash)
    ));
    let path = tree.get_merkle_path(&[false, true, true]).unwrap();
    assert_eq!(path, FieldElement::from_u64(6));
}

#[test]
fn steps_are_read_back_from_a_merkle_path() {
    let tree = SparseMerkleTree::new(5).unwrap();
    let steps = [true, false, false, true, true];
    let path = tree.get_merkle_path(&steps).unwrap();
    for (i, step) in steps.iter().enumerate() {
        assert_eq!(SparseMerkleTree::get_path_bit(&path, i), *step);
    }
}

#[test]
fn hasher_is_poseidon_over_two_inputs() {
    let one = FieldElement::from_u64(1);
    let two = FieldElement::from_u64(2);
    let mut hasher = Hasher::new_circom(2).unwrap();
    let digest = hasher.hash_pair(&one, &two).unwrap();
    assert_eq!(digest, poseidon_pair(&one, &two));
    assert_eq!(hasher.hash(&[one, two]).unwrap(), digest);
    assert_ne!(digest, one);
    assert_ne!(digest, two);
    let expected = Fr::from_str(
        "7853200120776062878684798364095072458815029376092732009249414926327459813530",
    )
    .unwrap();
    assert_eq!(to_fr(&digest), expected);
    assert_ne!(hasher.hash_pair(&two, &one).unwrap(), digest);
}

#[test]
fn hasher_exists_for_one_to_twelve_inputs() {
    assert!(Hasher::new_circom(0).is_err());
    for n in 1..=12usize {
        assert_eq!(Hasher::new_circom(n).unwrap().nr_inputs(), n);
    }
    assert!(Hasher::new_circom(13).is_err());
    assert!(Hasher::new_circom(1000).is_err());
}

#[test]
fn hasher_refuses_another_number_of_inputs() {
    let x = FieldElement::from_u64(9);
    let mut three = Hasher::new_circom(3).unwrap();
    assert!(three.hash(&[x, x]).is_err());
    assert!(three.hash_pair(&x, &x).is_err());
    assert!(three.hash(&[x, x, x]).is_ok());
    let mut two = Hasher::new_circom(2).unwrap();
    assert!(two.hash(&[x]).is_err());
    assert!(two.hash(&[]).is_err());
}

#[test]
fn node_hash_of_a_leaf_is_its_value() {
    let mut hasher = Hasher::new_circom(2).unwrap();
    let leaf = Node::new_leaf(FieldElement::from_u64(42));
    assert_eq!(leaf.compute_hash(&mut hasher).unwrap(), FieldElement::from_u64(42));
    let mut wrong = Hasher::new_circom(3).unwrap();
    assert_eq!(leaf.compute_hash(&mut wrong).unwrap(), FieldElement::from_u64(42));
    assert_eq!(Node::new_empty_leaf().node_type.value(), Some(&FieldElement::zero()));
    assert_eq!(Node::new_empty_leaf().node_type.hash(), None);
}

#[test]
fn node_hash_counts_an_absent_child_beside_a_leaf_as_zero() {
    let mut hasher = Hasher::new_circom(2).unwrap();
    let value = FieldElement::from_u64(7);
    let mut node = Node::new_empty_inner();
    node.right = Some(Node::new_borrowed_leaf(value));
    assert!(node.is_last_inner());
    assert_eq!(
        node.compute_hash(&mut hasher).unwrap(),
        poseidon_pair(&FieldElement::zero(), &value)
    );
}

#[test]
fn node_hash_counts_an_absent_inner_child_as_the_empty_hash() {
    let mut hasher = Hasher::new_circom(2).unwrap();
    let stored = FieldElement::from_u64(5);
    let mut lower = Node::new_inner(stored);
    lower.left = Some(Node::new_borrowed_leaf(FieldElement::from_u64(3)));
    let lower_hash = poseidon_pair(&FieldElement::from_u64(3), &FieldElement::zero());
    let mut upper = Node::new_empty_inner();
    upper.left = Some(Box::new(lower));
    assert!(!upper.is_last_inner());
    assert_eq!(
        upper.compute_hash(&mut hasher).unwrap(),
        poseidon_pair(&lower_hash, &get_empty_inner_hash())
    );
    let childless = Node::new_empty_inner();
    assert!(!childless.is_last_inner());
    assert_eq!(
        childless.compute_hash(&mut hasher).unwrap(),
        poseidon_pair(&get_empty_inner_hash(), &get_empty_inner_hash())
    );
}

#[test]
fn node_recalculation_replaces_a_stale_hash() {
    let mut hasher = Hasher::new_circom(2).unwrap();
    let mut node = Node::new_inner(FieldElement::from_u64(1));
    node.left = Some(Node::new_borrowed_leaf(FieldElement::from_u64(10)));
    node.right = Some(Node::new_borrowed_leaf(FieldElement::from_u64(20)));
    node.recalculate_hash(&mut hasher).unwrap();
    let expected = poseidon_pair(&FieldElement::from_u64(10), &FieldElement::from_u64(20));
    assert_eq!(node.node_type.hash(), Some(&expected));
    assert_eq!(*node.node_type.data(), expected);
    let mut leaf = Node::new_leaf(FieldElement::from_u64(4));
    leaf.recalculate_hash(&mut hasher).unwrap();
    assert_eq!(leaf.node_type.value(), Some(&FieldElement::from_u64(4)));
}

#[test]
fn node_recalculation_fails_without_a_pair_hasher() {
    let mut wrong = Hasher::new_circom(1).unwrap();
    let mut node = Node::new_inner(FieldElement::from_u64(1));
    node.left = Some(Node::new_borrowed_leaf(FieldElement::from_u64(10)));
    let result = node.recalculate_hash(&mut wrong);
    assert!(matches!(result, Err(PoseidonMerkleError::HasherError(_))));
    assert_eq!(node.node_type.hash(), Some(&FieldElement::from_u64(1)));
    assert!(matches!(
        node.compute_hash(&mut wrong),
        Err(PoseidonMerkleError::HasherError(_))
    ));
}

#[test]
fn nodes_are_equal_by_what_they_hold() {
    let mut a = Node::new_inner(FieldElement::from_u64(1));
    let b = Node::new_inner(FieldElement::from_u64(1));
    a.left = Some(Node::new_borrowed_empty_leaf());
    assert!(a == b);
    assert!(Node::new_leaf(FieldElement::from_u64(1)) != b);
    assert!(a.clone() == a);
    assert!(a.clone().left.is_some());
    assert!(*Node::new_borrowed_inner(FieldElement::from_u64(2)) != b);
    assert!(matches!(
        Node::new_borrowed_empty_inner().node_type,
        NodeType::Inner(_)
    ));
}

#[test]
fn new_tree_holds_the_empty_hash_at_any_depth() {
    for depth in [1usize, 2, 7, 64, 300] {
        let mut tree = SparseMerkleTree::new(depth).unwrap();
        assert!(tree.is_empty());
        assert_eq!(tree.depth(), depth);
        assert_eq!(tree.root_hash().unwrap(), get_empty_inner_hash());
        assert_eq!(tree.get_root_hash().unwrap(), get_empty_inner_hash());
        assert!(collect(&tree).is_empty());
    }
}

#[test]
fn tree_with_hasher_refuses_depth_zero() {
    let hasher = Hasher::new_circom(2).unwrap();
    assert!(matches!(
        SparseMerkleTree::new_with_hasher(0, hasher),
        Err(PoseidonMerkleError::InvalidDepth)
    ));
    assert!(SparseMerkleTree::new_with_hasher(1, hasher).is_ok());
}

#[test]
fn insert_at_depth_three_gives_the_folded_root() {
    let mut tree = SparseMerkleTree::new(3).unwrap();
    let path = path_of(&[false, true, true]);
    let value = FieldElement::from_u64(55);
    tree.insert_at_path(&path, &value).unwrap();
    let empty = get_empty_inner_hash();
    let level_two = poseidon_pair(&FieldElement::zero(), &value);
    let level_one = poseidon_pair(&empty, &level_two);
    let root = poseidon_pair(&level_one, &empty);
    assert_eq!(tree.get_root_hash().unwrap(), root);
    assert_eq!(tree.root_hash().unwrap(), root);
    assert_eq!(
        tree.get_inner_node(&path, 2).unwrap().node_type.hash(),
        Some(&level_two)
    );
    assert_eq!(
        tree.get_inner_node(&path, 1).unwrap().node_type.hash(),
        Some(&level_one)
    );
    assert_eq!(
        tree.get_inner_node(&path, 0).unwrap().node_type.hash(),
        Some(&root)
    );
    assert_eq!(tree.root().node_type.hash(), Some(&root));
    assert_eq!(
        tree.root().compute_hash(&mut Hasher::new_circom(2).unwrap()).unwrap(),
        root
    );
}

#[test]
fn insert_beside_a_stored_leaf_hashes_both_values() {
    let mut tree = SparseMerkleTree::new(1).unwrap();
    let left = path_of(&[false]);
    let right = path_of(&[true]);
    tree.insert_at_path(&left, &FieldElement::from_u64(3)).unwrap();
    assert_eq!(
        tree.get_root_hash().unwrap(),
        poseidon_pair(&FieldElement::from_u64(3), &FieldElement::zero())
    );
    tree.insert_at_path(&right, &FieldElement::from_u64(4)).unwrap();
    assert_eq!(
        tree.get_root_hash().unwrap(),
        poseidon_pair(&FieldElement::from_u64(3), &FieldElement::from_u64(4))
    );
    assert_eq!(tree.get_value(&left).unwrap(), FieldElement::from_u64(3));
    assert_eq!(tree.get_value(&right).unwrap(), FieldElement::from_u64(4));
    tree.insert_at_path(&left, &FieldElement::from_u64(9)).unwrap();
    assert_eq!(tree.get_value(&left).unwrap(), FieldElement::from_u64(9));
    assert_eq!(
        tree.get_root_hash().unwrap(),
        poseidon_pair(&FieldElement::from_u64(9), &FieldElement::from_u64(4))
    );
}

#[test]
fn paths_that_agree_on_the_first_bits_name_one_leaf() {
    let mut tree = SparseMerkleTree::new(2).unwrap();
    tree.insert_at_path(&FieldElement::from_u64(1), &FieldElement::from_u64(10)).unwrap();
    assert_eq!(
        tree.get_value(&FieldElement::from_u64(5)).unwrap(),
        FieldElement::from_u64(10)
    );
    assert_eq!(collect(&tree), vec![FieldElement::from_u64(10)]);
}

#[test]
fn get_node_gives_the_stored_leaf() {
    let mut tree = SparseMerkleTree::new(4).unwrap();
    let path = path_of(&[true, true, false, true]);
    tree.insert_at_path(&path, &FieldElement::from_u64(8)).unwrap();
    let node = tree.get_node(&path).unwrap();
    assert_eq!(node.node_type.value(), Some(&FieldElement::from_u64(8)));
    assert!(node.left.is_none() && node.right.is_none());
}

#[test]
fn inner_node_off_the_stored_part_is_the_empty_one() {
    let mut tree = SparseMerkleTree::new(3).unwrap();
    tree.insert_at_path(&path_of(&[false, false, false]), &FieldElement::from_u64(1)).unwrap();
    let off = path_of(&[true, true, true]);
    let node = tree.get_inner_node(&off, 2).unwrap();
    assert_eq!(node.node_type.hash(), Some(&get_empty_inner_hash()));
    assert!(node.left.is_none() && node.right.is_none());
    let fresh = SparseMerkleTree::new(3).unwrap();
    assert_eq!(
        fresh.get_inner_node(&off, 0).unwrap().node_type.hash(),
        Some(&get_empty_inner_hash())
    );
}

#[test]
fn inner_node_at_the_leaf_level_is_refused() {
    let tree = SparseMerkleTree::new(3).unwrap();
    let path = FieldElement::zero();
    assert!(matches!(
        tree.get_inner_node(&path, 3),
        Err(PoseidonMerkleError::InvalidLevel)
    ));
    assert!(matches!(
        tree.get_inner_node(&path, 4),
        Err(PoseidonMerkleError::InvalidLevel)
    ));
    assert!(tree.get_inner_node(&path, 2).is_ok());
}

#[test]
fn insert_without_a_pair_hasher_leaves_the_tree_as_it_was() {
    let wrong = Hasher::new_circom(3).unwrap();
    let mut tree = SparseMerkleTree::new_with_hasher(2, wrong).unwrap();
    let path = path_of(&[true, false]);
    let result = tree.insert_at_path(&path, &FieldElement::from_u64(1));
    assert!(matches!(result, Err(PoseidonMerkleError::HasherError(_))));
    assert!(tree.is_empty());
    assert!(tree.root().left.is_none() && tree.root().right.is_none());
    assert!(matches!(
        tree.delete_at_path(&path),
        Err(PoseidonMerkleError::HasherError(_))
    ));
    assert!(tree.generate_proof(&path).is_err());
}

#[test]
fn deleted_leaf_stays_stored_with_zero() {
    let mut tree = SparseMerkleTree::new(2).unwrap();
    let path = path_of(&[true, false]);
    tree.insert_at_path(&path, &FieldElement::from_u64(123)).unwrap();
    tree.delete_at_path(&path).unwrap();
    assert_eq!(tree.get_value(&path).unwrap(), FieldElement::zero());
    assert_eq!(collect(&tree), vec![FieldElement::zero()]);
    let zero = FieldElement::zero();
    let root = poseidon_pair(&get_empty_inner_hash(), &poseidon_pair(&zero, &zero));
    assert_eq!(tree.get_root_hash().unwrap(), root);
    assert_eq!(tree.is_empty(), root == get_empty_inner_hash());
    assert!(!tree.is_empty());
    let proof = tree.generate_proof(&path).unwrap();
    assert!(proof.verify_proof(&mut Hasher::new_circom(2).unwrap()).unwrap());
}

#[test]
fn delete_of_an_unwritten_path_stores_a_zero_leaf() {
    let mut tree = SparseMerkleTree::new(2).unwrap();
    let path = path_of(&[false, true]);
    tree.delete_at_path(&path).unwrap();
    assert_eq!(tree.get_value(&path).unwrap(), FieldElement::zero());
    assert_eq!(collect(&tree).len(), 1);
}

#[test]
fn clear_forgets_every_leaf() {
    let mut tree = SparseMerkleTree::new(3).unwrap();
    for (i, bits) in [[false, false, true], [true, false, true], [true, true, true]]
        .iter()
        .enumerate()
    {
        tree.insert_at_path(&path_of(bits), &FieldElement::from_u64(i as u64 + 1)).unwrap();
    }
    assert!(!tree.is_empty());
    tree.clear();
    assert!(tree.is_empty());
    assert_eq!(tree.depth(), 3);
    assert_eq!(tree.get_root_hash().unwrap(), get_empty_inner_hash());
    assert!(collect(&tree).is_empty());
    assert!(tree.generate_proof(&path_of(&[false, false, true])).is_err());
    tree.insert_at_path(&path_of(&[false, false, true]), &FieldElement::from_u64(1)).unwrap();
    assert!(!tree.is_empty());
}

#[test]
fn proof_siblings_at_depth_two() {
    let mut tree = SparseMerkleTree::new(2).unwrap();
    let path = path_of(&[true, false]);
    let value = FieldElement::from_u64(100);
    tree.insert_at_path(&path, &value).unwrap();
    let parent = tree.get_inner_node(&path, 1).unwrap();
    assert_eq!(
        parent.node_type.hash(),
        Some(&poseidon_pair(&value, &FieldElement::zero()))
    );
    let proof = tree.generate_proof(&path).unwrap();
    assert_eq!(
        proof.siblings,
        vec![get_empty_inner_hash(), FieldElement::zero()]
    );
    assert_eq!(proof.root_hash, tree.get_root_hash().unwrap());
    assert_eq!(
        proof.root_hash,
        poseidon_pair(
            &get_empty_inner_hash(),
            &poseidon_pair(&value, &FieldElement::zero())
        )
    );
    assert!(proof.verify_proof(&mut Hasher::new_circom(2).unwrap()).unwrap());
}

#[test]
fn proof_with_a_stored_leaf_beside_it_verifies() {
    let mut tree = SparseMerkleTree::new(2).unwrap();
    let first = path_of(&[false, false]);
    let second = path_of(&[false, true]);
    tree.insert_at_path(&first, &FieldElement::from_u64(100)).unwrap();
    tree.insert_at_path(&second, &FieldElement::from_u64(200)).unwrap();
    let mut hasher = Hasher::new_circom(2).unwrap();
    let proof = tree.generate_proof(&first).unwrap();
    assert_eq!(
        proof.siblings,
        vec![get_empty_inner_hash(), FieldElement::from_u64(200)]
    );
    assert!(proof.verify_proof(&mut hasher).unwrap());
    let other = tree.generate_proof(&second).unwrap();
    assert_eq!(other.siblings[1], FieldElement::from_u64(100));
    assert!(other.verify_proof(&mut hasher).unwrap());
}

#[test]
fn proof_for_every_stored_leaf_verifies() {
    let mut tree = SparseMerkleTree::new(4).unwrap();
    let mut hasher = Hasher::new_circom(2).unwrap();
    let writes: Vec<(u64, u64)> = vec![(0, 5), (15, 6), (7, 7), (8, 8), (9, 0), (6, 11)];
    for (path, value) in writes.iter() {
        tree.insert_at_path(&FieldElement::from_u64(*path), &FieldElement::from_u64(*value))
            .unwrap();
    }
    for (path, value) in writes.iter() {
        let proof = tree.generate_proof(&FieldElement::from_u64(*path)).unwrap();
        assert_eq!(proof.leaf_value, FieldElement::from_u64(*value));
        assert_eq!(proof.siblings.len(), 4);
        assert_eq!(proof.root_hash, tree.get_root_hash().unwrap());
        assert!(proof.verify_proof(&mut hasher).unwrap());
    }
}

#[test]
fn proof_of_an_unwritten_path_names_the_level() {
    let mut tree = SparseMerkleTree::new(3).unwrap();
    tree.insert_at_path(&path_of(&[true, false, false]), &FieldElement::from_u64(1)).unwrap();
    let at_root = tree.generate_proof(&path_of(&[false, false, false]));
    assert!(matches!(
        at_root,
        Err(PoseidonMerkleError::SiblingNotFound(ProofError::SiblingNotFound(0)))
    ));
    let below = tree.generate_proof(&path_of(&[true, true, false]));
    assert!(matches!(
        below,
        Err(PoseidonMerkleError::SiblingNotFound(ProofError::SiblingNotFound(1)))
    ));
    let beside = tree.generate_proof(&path_of(&[true, false, true]));
    assert!(matches!(
        beside,
        Err(PoseidonMerkleError::SiblingNotFound(ProofError::SiblingNotFound(2)))
    ));
    assert_eq!(
        ProofError::SiblingNotFound(2),
        ProofError::SiblingNotFound(2)
    );
    assert_ne!(ProofError::InnerNodeExpected, ProofError::EmptyNodeHash);
}

#[test]
fn changed_proof_is_refused() {
    let mut tree = SparseMerkleTree::new(3).unwrap();
    let path = path_of(&[true, false, true]);
    tree.insert_at_path(&path, &FieldElement::from_u64(100)).unwrap();
    tree.insert_at_path(&path_of(&[true, false, false]), &FieldElement::from_u64(7)).unwrap();
    let mut hasher = Hasher::new_circom(2).unwrap();
    let proof = tree.generate_proof(&path).unwrap();
    assert!(proof.verify_proof(&mut hasher).unwrap());

    for i in 0..proof.siblings.len() {
        let mut changed = proof.clone();
        changed.siblings[i] = FieldElement::from_u64(12345);
        assert_eq!(changed.verify_proof(&mut hasher).unwrap(), false);
    }
    let mut changed = proof.clone();
    changed.leaf_value = FieldElement::from_u64(101);
    assert_eq!(changed.verify_proof(&mut hasher).unwrap(), false);
    let mut changed = proof.clone();
    changed.root_hash = FieldElement::from_u64(1);
    assert_eq!(changed.verify_proof(&mut hasher).unwrap(), false);
    let mut changed = proof.clone();
    changed.merkle_path = path_of(&[false, false, true]);
    assert_eq!(changed.verify_proof(&mut hasher).unwrap(), false);
}

#[test]
fn proof_without_siblings_compares_leaf_and_root() {
    let mut hasher = Hasher::new_circom(2).unwrap();
    let x = FieldElement::from_u64(3);
    let same = MerkleProof::new(Vec::new(), FieldElement::zero(), x, x);
    assert!(same.verify_proof(&mut hasher).unwrap());
    let other = MerkleProof::new(Vec::new(), FieldElement::zero(), x, FieldElement::from_u64(4));
    assert!(!other.verify_proof(&mut hasher).unwrap());
    let mut wrong = Hasher::new_circom(3).unwrap();
    assert!(same.verify_proof(&mut wrong).unwrap());
}

#[test]
fn proof_verification_fails_without_a_pair_hasher() {
    let mut wrong = Hasher::new_circom(3).unwrap();
    let x = FieldElement::from_u64(3);
    let made = MerkleProof::new(vec![x], FieldElement::zero(), x, x);
    assert!(matches!(
        made.verify_proof(&mut wrong),
        Err(PoseidonMerkleError::HasherError(_))
    ));
}

#[test]
fn proof_verification_folds_from_the_leaf_up() {
    let mut hasher = Hasher::new_circom(2).unwrap();
    let leaf = FieldElement::from_u64(1);
    let upper = FieldElement::from_u64(2);
    let lower = FieldElement::from_u64(3);
    let path = path_of(&[true, false]);
    let root = poseidon_pair(&upper, &poseidon_pair(&leaf, &lower));
    let made = MerkleProof::new(vec![upper, lower], path, leaf, root);
    assert!(made.verify_proof(&mut hasher).unwrap());
    let swapped = MerkleProof::new(vec![lower, upper], path, leaf, root);
    assert!(!swapped.verify_proof(&mut hasher).unwrap());
}

#[test]
fn order_of_writes_does_not_change_the_root() {
    let writes: Vec<(u64, u64)> = vec![(3, 30), (12, 40), (5, 50), (4, 60), (10, 0)];
    let mut forward = SparseMerkleTree::new(4).unwrap();
    for (path, value) in writes.iter() {
        forward
            .insert_at_path(&FieldElement::from_u64(*path), &FieldElement::from_u64(*value))
            .unwrap();
    }
    let mut backward = SparseMerkleTree::new(4).unwrap();
    for (path, value) in writes.iter().rev() {
        backward
            .insert_at_path(&FieldElement::from_u64(*path), &FieldElement::from_u64(*value))
            .unwrap();
    }
    let mut mixed = SparseMerkleTree::new(4).unwrap();
    for i in [2usize, 0, 4, 1, 3] {
        let (path, value) = writes[i];
        mixed
            .insert_at_path(&FieldElement::from_u64(path), &FieldElement::from_u64(value))
            .unwrap();
    }
    let root = forward.get_root_hash().unwrap();
    assert_eq!(backward.get_root_hash().unwrap(), root);
    assert_eq!(mixed.get_root_hash().unwrap(), root);
    assert_eq!(forward.root_hash().unwrap(), root);
    assert_eq!(collect(&forward), collect(&backward));
}

#[test]
fn leaves_come_from_left_to_right() {
    let mut tree = SparseMerkleTree::new(3).unwrap();
    let writes = [
        ([true, true, true], 7u64),
        ([false, false, false], 1),
        ([true, false, false], 4),
        ([false, true, true], 3),
        ([false, true, false], 2),
    ];
    for (bits, value) in writes.iter() {
        tree.insert_at_path(&path_of(bits), &FieldElement::from_u64(*value)).unwrap();
    }
    let expected: Vec<FieldElement> = [1u64, 2, 3, 4, 7]
        .iter()
        .map(|v| FieldElement::from_u64(*v))
        .collect();
    assert_eq!(collect(&tree), expected);
    let mut owned = tree.into_iter();
    let mut values = Vec::new();
    while let Some(value) = owned.next() {
        values.push(value);
    }
    assert_eq!(values, expected);
    assert_eq!(owned.next(), None);
}

#[test]
fn deep_tree_stores_and_proves() {
    let mut tree = SparseMerkleTree::default();
    let mut hasher = Hasher::new_circom(2).unwrap();
    let first = FieldElement::from_u64(0xABCDE);
    let second = FieldElement::from_u64(0xABCDF);
    tree.insert_at_path(&first, &FieldElement::from_u64(1)).unwrap();
    tree.insert_at_path(&second, &FieldElement::from_u64(2)).unwrap();
    assert_eq!(tree.get_value(&first).unwrap(), FieldElement::from_u64(1));
    assert_eq!(tree.get_value(&second).unwrap(), FieldElement::from_u64(2));
    let proof = tree.generate_proof(&second).unwrap();
    assert_eq!(proof.siblings.len(), 20);
    assert!(proof.verify_proof(&mut hasher).unwrap());
    assert_eq!(collect(&tree), vec![FieldElement::from_u64(1), FieldElement::from_u64(2)]);
}
