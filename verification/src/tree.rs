//! The sparse Merkle tree: a root, a fixed depth, and the operations that
//! read and write leaves by their paths.

use crate::constants::{empty_inner_hash, get_empty_inner_hash};
use crate::errors::{PoseidonMerkleError, ProofError};
use crate::field::{le_bits_value, modulus, nat_bit, path_bits, FieldElement};
use crate::hasher::{field_values, Hasher};
use crate::merkle_proof::{fold_path, MerkleProof};
use crate::node::{Node, NodeType};
use crate::subtree::agree_from;
use vstd::prelude::*;

verus! {

/// A sparse Merkle tree of fixed depth over Poseidon. Its view is the map
/// from the paths that were written, each a sequence of `depth` steps, to
/// the values of their leaves. A leaf that was deleted stays in the map with
/// the value zero.
#[derive(Debug, Clone)]
pub struct SparseMerkleTree {
    hasher: Hasher,
    root: Node,
    depth: usize,
    vacant: Node,
}

impl View for SparseMerkleTree {
    type V = Map<Seq<bool>, nat>;

    open spec fn view(&self) -> Map<Seq<bool>, nat> {
        Map::new(
            |q: Seq<bool>| q.len() == self.spec_depth() && self.spec_root().lookup(q, 0) is Some,
            |q: Seq<bool>| self.spec_root().lookup(q, 0).unwrap(),
        )
    }
}

impl SparseMerkleTree {
    /// The root node.
    pub closed spec fn spec_root(self) -> Node {
        self.root
    }

    /// The number of steps from the root to a leaf.
    pub closed spec fn spec_depth(self) -> nat {
        self.depth as nat
    }

    /// The hasher of the tree.
    pub closed spec fn spec_hasher(self) -> Hasher {
        self.hasher
    }

    /// The node that is handed out where a path leaves what is stored.
    pub closed spec fn spec_vacant(self) -> Node {
        self.vacant
    }

    /// The hash that the root holds.
    pub open spec fn spec_root_hash(self) -> nat {
        self.spec_root().node_type.spec_data()
    }

    /// Whether the root holds the canonical empty hash.
    pub open spec fn spec_is_empty(self) -> bool {
        self.spec_root_hash() == empty_inner_hash()
    }

    /// The steps that `path` names in this tree.
    pub open spec fn key(self, path: FieldElement) -> Seq<bool> {
        path_bits(path@, self.spec_depth())
    }

    /// Whether the tree is one that the operations leave: the depth is at
    /// least 1; the root is an inner node that holds the canonical empty
    /// hash while nothing was written, and else is well formed.
    pub open spec fn wf(self) -> bool {
        &&& self.spec_depth() >= 1
        &&& self.spec_root().node_type is Inner
        &&& self.spec_vacant().is_empty_inner()
        &&& if self.spec_root().left is None && self.spec_root().right is None {
            self.spec_root_hash() == empty_inner_hash()
        } else {
            self.spec_root().well_formed(self.spec_depth())
        }
    }

    /// A tree of the given depth with nothing written, over the given
    /// hasher. A depth of zero is refused.
    pub fn new_with_hasher(depth: usize, hasher: Hasher) -> (r: Result<
        SparseMerkleTree,
        PoseidonMerkleError,
    >)
        ensures
            r is Err <==> depth == 0,
            r is Err ==> r.unwrap_err() is InvalidDepth,
            r is Ok ==> {
                let tree = r.unwrap();
                &&& tree.wf()
                &&& tree.spec_depth() == depth
                &&& tree.spec_hasher() == hasher
                &&& tree.spec_root().is_empty_inner()
                &&& tree.spec_is_empty()
                &&& tree@ == Map::<Seq<bool>, nat>::empty()
            },
    {
        if depth == 0 {
            return Err(PoseidonMerkleError::InvalidDepth);
        }
        let tree = SparseMerkleTree {
            hasher,
            root: Node::new_empty_inner(),
            depth,
            vacant: Node::new_empty_inner(),
        };
        proof {
            tree.lemma_nothing_written();
        }
        Ok(tree)
    }

    /// A tree of the given depth with nothing written, over a hasher that
    /// takes pairs. A depth of zero is refused.
    pub fn new(depth: usize) -> (r: Result<SparseMerkleTree, PoseidonMerkleError>)
        ensures
            r is Err <==> depth == 0,
            r is Err ==> r.unwrap_err() is InvalidDepth,
            r is Ok ==> {
                let tree = r.unwrap();
                &&& tree.wf()
                &&& tree.spec_depth() == depth
                &&& tree.spec_hasher().accepts_pairs()
                &&& tree.spec_root().is_empty_inner()
                &&& tree.spec_is_empty()
                &&& tree@ == Map::<Seq<bool>, nat>::empty()
            },
    {
        match Hasher::new_circom(2) {
            Ok(hasher) => SparseMerkleTree::new_with_hasher(depth, hasher),
            Err(e) => Err(PoseidonMerkleError::HasherError(e)),
        }
    }

    /// Below a root without children no leaf is stored.
    pub proof fn lemma_nothing_written(self)
        requires
            self.spec_depth() >= 1,
            self.spec_root().left is None,
            self.spec_root().right is None,
        ensures
            self@ == Map::<Seq<bool>, nat>::empty(),
    {
        assert(self@ =~= Map::<Seq<bool>, nat>::empty());
    }

    /// The number of steps from the root to a leaf.
    pub fn depth(&self) -> (depth: usize)
        ensures
            depth == self.spec_depth(),
    {
        self.depth
    }

    /// The root node.
    pub fn root(&self) -> (root: &Node)
        ensures
            *root == self.spec_root(),
    {
        &self.root
    }

    /// Gives up the tree for its root node.
    pub fn into_root(self) -> (root: Node)
        ensures
            root == self.spec_root(),
    {
        self.root
    }

    /// The step that `merkle_path` takes at the level `position`: `true` for
    /// the right child. It is bit `position` of the path, counting from the
    /// least significant.
    pub fn get_path_bit(merkle_path: &FieldElement, position: usize) -> (go_right: bool)
        ensures
            go_right == nat_bit(merkle_path@, position as nat),
    {
        merkle_path.bit(position)
    }

    /// The steps that `path` takes through a tree of the given depth.
    fn path_steps(path: &FieldElement, depth: usize) -> (steps: Vec<bool>)
        ensures
            steps@ == path_bits(path@, depth as nat),
    {
        let bits = path.to_bits_le();
        let mut steps: Vec<bool> = Vec::new();
        let mut level: usize = 0;
        while level < depth
            invariant
                level <= depth,
                bits@.len() == 256,
                forall|i: int| 0 <= i < 256 ==> bits@[i] == nat_bit(path@, i as nat),
                steps@ == path_bits(path@, level as nat),
            decreases depth - level,
        {
            let step = if level < bits.len() {
                bits[level]
            } else {
                path.bit(level)
            };
            steps.push(step);
            level = level + 1;
            assert(steps@ =~= path_bits(path@, level as nat));
        }
        steps
    }

    /// The hash that the root holds.
    pub fn get_root_hash(&self) -> (r: Result<FieldElement, PoseidonMerkleError>)
        requires
            self.wf(),
        ensures
            r is Ok,
            r.unwrap()@ == self.spec_root_hash(),
    {
        match self.root.node_type.hash() {
            Some(hash) => Ok(*hash),
            None => Err(PoseidonMerkleError::InvalidNodeType),
        }
    }

    /// The hash that the root holds. The tree is left as it is.
    pub fn root_hash(&mut self) -> (r: Result<FieldElement, PoseidonMerkleError>)
        requires
            old(self).wf(),
        ensures
            *final(self) == *old(self),
            r is Ok,
            r.unwrap()@ == old(self).spec_root_hash(),
    {
        self.get_root_hash()
    }

    /// Whether the root holds the canonical empty hash, as it does while
    /// nothing was written.
    pub fn is_empty(&self) -> (empty: bool)
        requires
            self.wf(),
        ensures
            empty == self.spec_is_empty(),
            self@ == Map::<Seq<bool>, nat>::empty() ==> empty,
    {
        proof {
            if self@ == Map::<Seq<bool>, nat>::empty() {
                self.lemma_written_root_stores_a_leaf();
            }
        }
        match self.root.node_type.hash() {
            Some(hash) => *hash == get_empty_inner_hash(),
            None => true,
        }
    }

    /// A root with a child stores a leaf.
    pub proof fn lemma_written_root_stores_a_leaf(self)
        requires
            self.wf(),
        ensures
            self.spec_root().left is Some || self.spec_root().right is Some ==> self@
                != Map::<Seq<bool>, nat>::empty(),
    {
        if self.spec_root().left is Some || self.spec_root().right is Some {
            let q = self.spec_root().lemma_stored_leaf(
                Seq::new(self.spec_depth(), |i: int| false),
                0,
            );
            assert(self@.contains_key(q));
        }
    }

    /// The inner node that `merkle_path` passes at `level`, where the root
    /// stands at level 0; the canonical empty inner node where the path has
    /// left what is stored by then. A level that is not above the leaves is
    /// refused.
    pub fn get_inner_node(&self, merkle_path: &FieldElement, level: usize) -> (r: Result<
        &Node,
        PoseidonMerkleError,
    >)
        requires
            self.wf(),
        ensures
            r is Err <==> level >= self.spec_depth(),
            r is Err ==> r.unwrap_err() is InvalidLevel,
            r is Ok ==> match self.spec_root().descend(self.key(*merkle_path), 0, level as nat) {
                Some(node) => *r.unwrap() == node,
                None => r.unwrap().is_empty_inner(),
            },
    {
        if level >= self.depth {
            return Err(PoseidonMerkleError::InvalidLevel);
        }
        let steps = SparseMerkleTree::path_steps(merkle_path, self.depth);
        let mut current: &Node = &self.root;
        let mut i: usize = 0;
        while i < level
            invariant
                i <= level < self.depth,
                self.wf(),
                steps@ == self.key(*merkle_path),
                self.spec_root().descend(steps@, 0, level as nat) == current.descend(
                    steps@,
                    i as nat,
                    level as nat,
                ),
            decreases level - i,
        {
            let stored = if steps[i] {
                &current.right
            } else {
                &current.left
            };
            match stored {
                Some(next) => {
                    current = &**next;
                },
                None => {
                    return Ok(&self.vacant);
                },
            }
            i = i + 1;
        }
        Ok(current)
    }

    /// The leaf at `merkle_path`, which must have been written.
    pub fn get_node(&self, merkle_path: &FieldElement) -> (r: Result<&Node, PoseidonMerkleError>)
        requires
            self.wf(),
            self@.contains_key(self.key(*merkle_path)),
        ensures
            r is Ok,
            Some(*r.unwrap()) == self.spec_root().descend(
                self.key(*merkle_path),
                0,
                self.spec_depth(),
            ),
            r.unwrap().node_type is Leaf,
            r.unwrap().node_type.spec_data() == self@[self.key(*merkle_path)],
    {
        let steps = SparseMerkleTree::path_steps(merkle_path, self.depth);
        let mut current: &Node = &self.root;
        let mut i: usize = 0;
        while i < self.depth
            invariant
                i <= self.depth,
                steps@ == self.key(*merkle_path),
                self.spec_root().lookup(steps@, 0) is Some,
                self.spec_root().lookup(steps@, 0) == current.lookup(steps@, i as nat),
                self.spec_root().descend(steps@, 0, self.depth as nat) == current.descend(
                    steps@,
                    i as nat,
                    self.depth as nat,
                ),
            decreases self.depth - i,
        {
            let stored = if steps[i] {
                &current.right
            } else {
                &current.left
            };
            match stored {
                Some(next) => {
                    current = &**next;
                },
                None => {
                    return Err(PoseidonMerkleError::InvalidNodeType);
                },
            }
            i = i + 1;
        }
        Ok(current)
    }

    /// The value of the leaf at `merkle_path`, which must have been written.
    pub fn get_value(&self, merkle_path: &FieldElement) -> (r: Result<
        FieldElement,
        PoseidonMerkleError,
    >)
        requires
            self.wf(),
            self@.contains_key(self.key(*merkle_path)),
        ensures
            r is Ok,
            r.unwrap()@ == self@[self.key(*merkle_path)],
    {
        match self.get_node(merkle_path) {
            Ok(node) => match node.node_type {
                NodeType::Leaf(value) => Ok(value),
                NodeType::Inner(_) => Err(PoseidonMerkleError::InvalidNodeType),
            },
            Err(e) => Err(e),
        }
    }

    /// The inclusion proof for the leaf at `merkle_path`: its value, the
    /// root hash, and the siblings along the path from the root down. A
    /// sibling that was never written counts with zero beside the leaf and
    /// with the canonical empty hash above. Where the leaf was never
    /// written, the error names the first level at which the path leaves
    /// what is stored.
    pub fn generate_proof(&self, merkle_path: &FieldElement) -> (r: Result<
        MerkleProof,
        PoseidonMerkleError,
    >)
        requires
            self.wf(),
        ensures
            r is Ok <==> self@.contains_key(self.key(*merkle_path)),
            r is Ok ==> {
                let made = r.unwrap();
                &&& made.merkle_path == *merkle_path
                &&& made.leaf_value@ == self@[self.key(*merkle_path)]
                &&& made.root_hash@ == self.spec_root_hash()
                &&& field_values(made.siblings@) == self.spec_root().path_siblings(
                    self.key(*merkle_path),
                    0,
                )
                &&& made.spec_valid()
            },
            r is Err ==> (r.unwrap_err() matches PoseidonMerkleError::SiblingNotFound(
                ProofError::SiblingNotFound(level),
            ) && level == self.spec_root().first_absent_level(self.key(*merkle_path), 0)),
    {
        let steps = SparseMerkleTree::path_steps(merkle_path, self.depth);
        let mut siblings: Vec<FieldElement> = Vec::new();
        let mut current: &Node = &self.root;
        let mut i: usize = 0;
        while i < self.depth
            invariant
                i <= self.depth,
                steps@ == self.key(*merkle_path),
                self.spec_root().lookup(steps@, 0) == current.lookup(steps@, i as nat),
                self.spec_root().first_absent_level(steps@, 0) == current.first_absent_level(
                    steps@,
                    i as nat,
                ),
                self.spec_root().path_siblings(steps@, 0) == field_values(siblings@)
                    + current.path_siblings(steps@, i as nat),
                current.left is Some || current.right is Some ==> current.well_formed(
                    (self.depth - i) as nat,
                ),
                i == self.depth ==> current.well_formed(0),
            decreases self.depth - i,
        {
            let go_right = steps[i];
            let beside_leaf = i == self.depth - 1;
            let next: &Node = match if go_right { &current.right } else { &current.left } {
                Some(stored) => &**stored,
                None => {
                    return Err(
                        PoseidonMerkleError::SiblingNotFound(ProofError::SiblingNotFound(i)),
                    );
                },
            };
            let sibling = match if go_right { &current.left } else { &current.right } {
                Some(stored) => match &stored.node_type {
                    NodeType::Inner(hash) => *hash,
                    NodeType::Leaf(value) => {
                        if !beside_leaf {
                            proof {
                                let below = (self.depth - i - 1) as nat;
                                assert(current.well_formed((self.depth - i) as nat));
                                assert(stored.well_formed(below));
                                assert(below > 0);
                            }
                            return Err(
                                PoseidonMerkleError::SiblingNotFound(ProofError::InnerNodeExpected),
                            );
                        }
                        *value
                    },
                },
                None => if beside_leaf {
                    FieldElement::zero()
                } else {
                    get_empty_inner_hash()
                },
            };
            proof {
                let collected = field_values(siblings@);
                let rest = current.path_siblings(steps@, i as nat);
                assert(rest == seq![sibling@] + next.path_siblings(steps@, (i + 1) as nat));
                assert(field_values(siblings@.push(sibling)) =~= collected.push(sibling@));
                assert(collected + rest =~= collected.push(sibling@) + next.path_siblings(
                    steps@,
                    (i + 1) as nat,
                ));
            }
            siblings.push(sibling);
            current = next;
            i = i + 1;
        }
        match current.node_type {
            NodeType::Leaf(value) => {
                let root_hash = match self.get_root_hash() {
                    Ok(hash) => hash,
                    Err(e) => {
                        return Err(e);
                    },
                };
                assert(field_values(siblings@) + Seq::<nat>::empty() =~= field_values(siblings@));
                proof {
                    self.root.lemma_path_folds(steps@, merkle_path@, 0);
                }
                Ok(MerkleProof::new(siblings, *merkle_path, value, root_hash))
            },
            NodeType::Inner(_) => Err(PoseidonMerkleError::InvalidNodeType),
        }
    }

    /// Forgets all that was written: the root is an inner node without
    /// children again.
    pub fn clear(&mut self)
        requires
            old(self).wf(),
        ensures
            final(self).wf(),
            final(self).spec_depth() == old(self).spec_depth(),
            final(self).spec_hasher() == old(self).spec_hasher(),
            final(self).spec_root().is_empty_inner(),
            final(self).spec_is_empty(),
            final(self)@ == Map::<Seq<bool>, nat>::empty(),
    {
        self.root = Node::new_empty_inner();
        proof {
            self.lemma_nothing_written();
        }
    }

    /// The field element that names the path with the steps `path`: the
    /// number that they spell, first step least significant. It fails where
    /// that number is no field element.
    pub fn get_merkle_path(&self, path: &[bool]) -> (r: Result<FieldElement, PoseidonMerkleError>)
        ensures
            r is Ok <==> le_bits_value(path@) < modulus(),
            r is Ok ==> r.unwrap()@ == le_bits_value(path@),
            r is Err ==> r.unwrap_err() is InvalidBitsPathHash,
    {
        match FieldElement::from_bits_le(path) {
            Some(merkle_path) => Ok(merkle_path),
            None => Err(PoseidonMerkleError::InvalidBitsPathHash),
        }
    }

    /// Writes `value` at `merkle_path` and renews the hashes from the leaf
    /// up to the root. Without a hasher that takes pairs it fails with the
    /// hasher's error and the tree is left as it is.
    pub fn insert_at_path(&mut self, merkle_path: &FieldElement, value: &FieldElement) -> (r:
        Result<(), PoseidonMerkleError>)
        requires
            old(self).wf(),
        ensures
            final(self).wf(),
            final(self).spec_depth() == old(self).spec_depth(),
            final(self).spec_hasher() == old(self).spec_hasher(),
            r is Ok <==> old(self).spec_hasher().accepts_pairs(),
            r is Ok ==> final(self)@ == old(self)@.insert(old(self).key(*merkle_path), value@),
            r is Ok ==> final(self).spec_root_hash() == fold_path(
                value@,
                final(self).spec_root().path_siblings(old(self).key(*merkle_path), 0),
                merkle_path@,
                0,
            ),
            r is Err ==> r.unwrap_err() is HasherError && *final(self) == *old(self),
    {
        let steps = SparseMerkleTree::path_steps(merkle_path, self.depth);
        let ghost before = *self;
        match self.root.insert_below(&steps, 0, *value, &mut self.hasher) {
            Ok(()) => {
                proof {
                    let key = before.key(*merkle_path);
                    assert(agree_from(key, key, 0));
                    assert(self.root.lookup(key, 0) == Some(value@));
                    self.root.lemma_path_folds(key, merkle_path@, 0);
                    assert forall|q: Seq<bool>| q.len() == key.len() implies (agree_from(q, key, 0)
                        <==> q == key) by {
                        if agree_from(q, key, 0) {
                            assert(q =~= key);
                        }
                    }
                    assert(self@ =~= before@.insert(key, value@));
                }
                Ok(())
            },
            Err(e) => Err(PoseidonMerkleError::HasherError(e)),
        }
    }

    /// Deletes the leaf at `merkle_path` by writing zero there. The leaf
    /// stays stored.
    pub fn delete_at_path(&mut self, merkle_path: &FieldElement) -> (r: Result<
        (),
        PoseidonMerkleError,
    >)
        requires
            old(self).wf(),
        ensures
            final(self).wf(),
            final(self).spec_depth() == old(self).spec_depth(),
            final(self).spec_hasher() == old(self).spec_hasher(),
            r is Ok <==> old(self).spec_hasher().accepts_pairs(),
            r is Ok ==> final(self)@ == old(self)@.insert(old(self).key(*merkle_path), 0),
            r is Ok ==> final(self).spec_root_hash() == fold_path(
                0,
                final(self).spec_root().path_siblings(old(self).key(*merkle_path), 0),
                merkle_path@,
                0,
            ),
            r is Err ==> r.unwrap_err() is HasherError && *final(self) == *old(self),
    {
        let zero = FieldElement::zero();
        self.insert_at_path(merkle_path, &zero)
    }
}

impl Default for SparseMerkleTree {
    /// A tree of depth 20 with nothing written, over a hasher that takes
    /// pairs.
    fn default() -> (tree: SparseMerkleTree)
        ensures
            tree.wf(),
            tree.spec_depth() == 20,
            tree.spec_hasher().accepts_pairs(),
            tree.spec_is_empty(),
            tree@ == Map::<Seq<bool>, nat>::empty(),
    {
        match SparseMerkleTree::new(20) {
            Ok(tree) => tree,
            Err(_) => unreached(),
        }
    }
}

} // verus!
