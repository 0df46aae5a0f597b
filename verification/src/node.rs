//! The cells of the tree: leaves that hold a value and inner nodes that hold
//! the hash of their two children.

use crate::constants::{empty_inner_hash, get_empty_inner_hash};
use crate::errors::PoseidonMerkleError;
use crate::field::FieldElement;
use crate::hasher::{poseidon2, Hasher};
use vstd::prelude::*;
use vstd::std_specs::cmp::PartialEqSpecImpl;

verus! {

/// What a node holds.
#[derive(Debug, Clone, Copy)]
pub enum NodeType {
    /// A leaf with its raw value, which is zero for an empty leaf.
    Leaf(FieldElement),
    /// An inner node with the hash of its children.
    Inner(FieldElement),
}

impl NodeType {
    /// The value or the hash that the node holds, as a number.
    pub open spec fn spec_data(self) -> nat {
        match self {
            NodeType::Leaf(value) => value@,
            NodeType::Inner(hash) => hash@,
        }
    }

    /// The hash of an inner node; `None` for a leaf.
    pub fn hash(&self) -> (r: Option<&FieldElement>)
        ensures
            r == match *self {
                NodeType::Leaf(_) => None::<&FieldElement>,
                NodeType::Inner(hash) => Some(&hash),
            },
    {
        match self {
            NodeType::Leaf(_) => None,
            NodeType::Inner(hash) => Some(hash),
        }
    }

    /// The value of a leaf; `None` for an inner node.
    pub fn value(&self) -> (r: Option<&FieldElement>)
        ensures
            r == match *self {
                NodeType::Leaf(value) => Some(&value),
                NodeType::Inner(_) => None::<&FieldElement>,
            },
    {
        match self {
            NodeType::Leaf(value) => Some(value),
            NodeType::Inner(_) => None,
        }
    }

    /// The value of a leaf or the hash of an inner node.
    pub fn data(&self) -> (r: &FieldElement)
        ensures
            *r == match *self {
                NodeType::Leaf(value) => value,
                NodeType::Inner(hash) => hash,
            },
            r@ == self.spec_data(),
    {
        match self {
            NodeType::Leaf(value) => value,
            NodeType::Inner(hash) => hash,
        }
    }
}

/// A node of the tree with the children that were written below it. A child
/// that is `None` stands for a subtree that was never written.
#[derive(Debug)]
pub struct Node {
    pub node_type: NodeType,
    pub left: Option<Box<Node>>,
    pub right: Option<Box<Node>>,
}

impl Node {
    /// Whether one of the children is a leaf.
    pub open spec fn spec_is_last_inner(self) -> bool {
        ||| (self.left is Some && self.left.unwrap().node_type is Leaf)
        ||| (self.right is Some && self.right.unwrap().node_type is Leaf)
    }

    /// What a child that was never written counts for in the hash of this
    /// node: zero beside a leaf, the canonical empty hash elsewhere.
    pub open spec fn absent_child_value(self) -> nat {
        if self.spec_is_last_inner() {
            0
        } else {
            empty_inner_hash()
        }
    }

    /// The hash of the subtree below this node, computed from the leaves up:
    /// a leaf counts with its raw value, an inner node with the Poseidon hash
    /// of what its two children count with.
    pub open spec fn spec_hash(self) -> nat
        decreases self,
    {
        match self.node_type {
            NodeType::Leaf(value) => value@,
            NodeType::Inner(_) => poseidon2(
                match self.left {
                    Some(child) => child.spec_hash(),
                    None => self.absent_child_value(),
                },
                match self.right {
                    Some(child) => child.spec_hash(),
                    None => self.absent_child_value(),
                },
            ),
        }
    }

    /// A leaf that holds zero.
    pub fn new_empty_leaf() -> (node: Node)
        ensures
            node.node_type is Leaf,
            node.node_type.spec_data() == 0,
            node.left is None,
            node.right is None,
    {
        Node { node_type: NodeType::Leaf(FieldElement::zero()), left: None, right: None }
    }

    /// An inner node without children that holds the canonical empty hash.
    pub fn new_empty_inner() -> (node: Node)
        ensures
            node.is_empty_inner(),
    {
        Node { node_type: NodeType::Inner(get_empty_inner_hash()), left: None, right: None }
    }

    /// A leaf that holds `value`.
    pub fn new_leaf(value: FieldElement) -> (node: Node)
        ensures
            node == (Node { node_type: NodeType::Leaf(value), left: None, right: None }),
    {
        Node { node_type: NodeType::Leaf(value), left: None, right: None }
    }

    /// An inner node without children that holds `hash`.
    pub fn new_inner(hash: FieldElement) -> (node: Node)
        ensures
            node == (Node { node_type: NodeType::Inner(hash), left: None, right: None }),
    {
        Node { node_type: NodeType::Inner(hash), left: None, right: None }
    }

    /// A boxed inner node without children that holds `hash`.
    pub fn new_borrowed_inner(hash: FieldElement) -> (node: Box<Node>)
        ensures
            *node == (Node { node_type: NodeType::Inner(hash), left: None, right: None }),
    {
        Box::new(Node::new_inner(hash))
    }

    /// A boxed leaf that holds `value`.
    pub fn new_borrowed_leaf(value: FieldElement) -> (node: Box<Node>)
        ensures
            *node == (Node { node_type: NodeType::Leaf(value), left: None, right: None }),
    {
        Box::new(Node::new_leaf(value))
    }

    /// A boxed leaf that holds zero.
    pub fn new_borrowed_empty_leaf() -> (node: Box<Node>)
        ensures
            node.node_type is Leaf,
            node.node_type.spec_data() == 0,
            node.left is None,
            node.right is None,
    {
        Box::new(Node::new_empty_leaf())
    }

    /// A boxed inner node without children that holds the canonical empty
    /// hash.
    pub fn new_borrowed_empty_inner() -> (node: Box<Node>)
        ensures
            node.is_empty_inner(),
    {
        Box::new(Node::new_empty_inner())
    }

    /// Whether one of the children is a leaf.
    pub fn is_last_inner(&self) -> (r: bool)
        ensures
            r == self.spec_is_last_inner(),
    {
        let left_is_leaf = match &self.left {
            Some(child) => matches!(child.node_type, NodeType::Leaf(_)),
            None => false,
        };
        let right_is_leaf = match &self.right {
            Some(child) => matches!(child.node_type, NodeType::Leaf(_)),
            None => false,
        };
        left_is_leaf || right_is_leaf
    }

    /// Computes the hash of the subtree below this node from its leaves up.
    /// A leaf gives its value and needs no hasher; an inner node needs a
    /// hasher that takes pairs, and fails with the hasher's error without
    /// one.
    pub fn compute_hash(&self, hasher: &mut Hasher) -> (r: Result<
        FieldElement,
        PoseidonMerkleError,
    >)
        ensures
            *final(hasher) == *old(hasher),
            r is Ok <==> (self.node_type is Leaf || old(hasher).accepts_pairs()),
            r is Ok ==> r.unwrap()@ == self.spec_hash(),
            r is Err ==> r.unwrap_err() is HasherError,
        decreases self,
    {
        match &self.node_type {
            NodeType::Inner(_) => {
                let is_last_inner = self.is_last_inner();
                let absent = if is_last_inner {
                    FieldElement::zero()
                } else {
                    get_empty_inner_hash()
                };
                let left = match &self.left {
                    Some(child) => match child.compute_hash(hasher) {
                        Ok(hash) => hash,
                        Err(e) => {
                            return Err(e);
                        },
                    },
                    None => absent,
                };
                let right = match &self.right {
                    Some(child) => match child.compute_hash(hasher) {
                        Ok(hash) => hash,
                        Err(e) => {
                            return Err(e);
                        },
                    },
                    None => absent,
                };
                match hasher.hash_pair(&left, &right) {
                    Ok(hash) => Ok(hash),
                    Err(e) => Err(PoseidonMerkleError::HasherError(e)),
                }
            },
            NodeType::Leaf(value) => Ok(*value),
        }
    }

    /// Replaces the hash that an inner node holds by the hash computed from
    /// its leaves up. A leaf is left as it is. Where the hasher fails, the
    /// node is left as it is.
    pub fn recalculate_hash(&mut self, hasher: &mut Hasher) -> (r: Result<
        (),
        PoseidonMerkleError,
    >)
        ensures
            *final(hasher) == *old(hasher),
            r is Ok <==> (old(self).node_type is Leaf || old(hasher).accepts_pairs()),
            r is Err ==> r.unwrap_err() is HasherError && *final(self) == *old(self),
            final(self).left == old(self).left,
            final(self).right == old(self).right,
            old(self).node_type is Leaf ==> final(self).node_type == old(self).node_type,
            r is Ok && old(self).node_type is Inner ==> final(self).node_type is Inner
                && final(self).node_type.spec_data() == old(self).spec_hash(),
    {
        match &self.node_type {
            NodeType::Leaf(_) => Ok(()),
            NodeType::Inner(_) => match self.compute_hash(hasher) {
                Ok(hash) => {
                    self.node_type = NodeType::Inner(hash);
                    Ok(())
                },
                Err(e) => Err(e),
            },
        }
    }

    /// Whether this is an inner node without children that holds the
    /// canonical empty hash.
    pub open spec fn is_empty_inner(self) -> bool {
        &&& self.node_type is Inner
        &&& self.node_type.spec_data() == empty_inner_hash()
        &&& self.left is None
        &&& self.right is None
    }
}

impl Clone for Node {
    /// A copy of the node and of all that was written below it.
    fn clone(&self) -> (copy: Node)
        ensures
            copy == *self,
        decreases self,
    {
        Node {
            node_type: self.node_type,
            left: match &self.left {
                Some(child) => Some(Box::new((&**child).clone())),
                None => None,
            },
            right: match &self.right {
                Some(child) => Some(Box::new((&**child).clone())),
                None => None,
            },
        }
    }
}

impl PartialEq for Node {
    /// Two nodes are equal when they hold the same value or hash, whatever
    /// stands below them.
    fn eq(&self, other: &Node) -> (r: bool) {
        match (&self.node_type, &other.node_type) {
            (NodeType::Leaf(a), NodeType::Leaf(b)) => a == b,
            (NodeType::Inner(a), NodeType::Inner(b)) => a == b,
            _ => false,
        }
    }
}

impl Eq for Node {

}

impl PartialEqSpecImpl for Node {
    open spec fn obeys_eq_spec() -> bool {
        true
    }

    open spec fn eq_spec(&self, other: &Node) -> bool {
        match (self.node_type, other.node_type) {
            (NodeType::Leaf(a), NodeType::Leaf(b)) => a@ == b@,
            (NodeType::Inner(a), NodeType::Inner(b)) => a@ == b@,
            _ => false,
        }
    }
}

} // verus!
