//! Walking a subtree along a path: what is stored at a path, when a subtree
//! is well formed, and how a value is written below a node.

use crate::constants::{empty_inner_hash, get_empty_inner_hash};
use crate::field::{nat_bit, FieldElement};
use crate::hasher::Hasher;
use crate::merkle_proof::fold_path;
use crate::node::{Node, NodeType};
use light_poseidon::PoseidonError;
use vstd::prelude::*;

verus! {

/// Whether two paths of one length take the same steps from `level` on.
pub open spec fn agree_from(p: Seq<bool>, q: Seq<bool>, level: nat) -> bool {
    forall|i: int| level <= i < q.len() ==> p[i] == q[i]
}

/// The siblings from `level` down along a path of `length` steps beside
/// which nothing was written: zero beside the leaf, the canonical empty
/// hash above.
pub open spec fn vacant_siblings(length: nat, level: nat) -> Seq<nat> {
    Seq::new(
        (length - level) as nat,
        |k: int|
            if level + k + 1 == length {
                0nat
            } else {
                empty_inner_hash()
            },
    )
}

impl Node {
    /// The child on the side that a step takes: the right one for `true`.
    pub open spec fn child(self, go_right: bool) -> Option<Box<Node>> {
        if go_right {
            self.right
        } else {
            self.left
        }
    }

    /// The node that the steps `bits[level..target]` lead to from this node,
    /// which stands at `level`; `None` where a step leaves what is stored.
    pub open spec fn descend(self, bits: Seq<bool>, level: nat, target: nat) -> Option<Node>
        decreases target - level,
    {
        if level >= target {
            Some(self)
        } else {
            match self.child(bits[level as int]) {
                Some(next) => next.descend(bits, level + 1, target),
                None => None,
            }
        }
    }

    /// The value of the leaf that the steps `bits[level..]` lead to from
    /// this node, which stands at `level`; `None` where no leaf is stored
    /// there.
    pub open spec fn lookup(self, bits: Seq<bool>, level: nat) -> Option<nat>
        decreases bits.len() - level,
    {
        if level >= bits.len() {
            match self.node_type {
                NodeType::Leaf(value) => Some(value@),
                NodeType::Inner(_) => None,
            }
        } else {
            match self.child(bits[level as int]) {
                Some(next) => next.lookup(bits, level + 1),
                None => None,
            }
        }
    }

    /// The first level from `level` on at which the path leaves what is
    /// stored below this node, or the length of the path where it does not.
    pub open spec fn first_absent_level(self, bits: Seq<bool>, level: nat) -> nat
        decreases bits.len() - level,
    {
        if level >= bits.len() {
            level
        } else {
            match self.child(bits[level as int]) {
                Some(next) => next.first_absent_level(bits, level + 1),
                None => level,
            }
        }
    }

    /// What the child beside the path counts for: what it holds where it is
    /// stored; else zero beside a leaf and the canonical empty hash
    /// elsewhere.
    pub open spec fn sibling_value(self, go_right: bool, beside_leaf: bool) -> nat {
        match self.child(!go_right) {
            Some(sibling) => sibling.node_type.spec_data(),
            None => if beside_leaf {
                0
            } else {
                empty_inner_hash()
            },
        }
    }

    /// The siblings along the steps `bits[level..]` from this node, which
    /// stands at `level`, as far as the path is stored.
    pub open spec fn path_siblings(self, bits: Seq<bool>, level: nat) -> Seq<nat>
        decreases bits.len() - level,
    {
        if level >= bits.len() {
            Seq::empty()
        } else {
            seq![self.sibling_value(bits[level as int], level + 1 == bits.len())] + (
            match self.child(bits[level as int]) {
                Some(next) => next.path_siblings(bits, level + 1),
                None => Seq::empty(),
            })
        }
    }

    /// Whether the subtree below this node is one that `height` levels of
    /// writing leave: a leaf without children at height 0; above, an inner
    /// node with at least one child, well-formed children, and the hash of
    /// its subtree.
    pub open spec fn well_formed(self, height: nat) -> bool
        decreases height,
    {
        if height == 0 {
            &&& self.node_type is Leaf
            &&& self.left is None
            &&& self.right is None
        } else {
            &&& self.node_type is Inner
            &&& (self.left is Some || self.right is Some)
            &&& (self.left is Some ==> self.left.unwrap().well_formed((height - 1) as nat))
            &&& (self.right is Some ==> self.right.unwrap().well_formed((height - 1) as nat))
            &&& self.node_type.spec_data() == self.spec_hash()
        }
    }

    /// Whether a value can be written below this node: it is an inner node
    /// that is well formed or has no children yet.
    pub open spec fn writable(self, height: nat) -> bool {
        &&& height > 0
        &&& self.node_type is Inner
        &&& ((self.left is None && self.right is None) || self.well_formed(height))
    }

    /// Whether `self` is `before` with `value` written at the path `bits`:
    /// the leaf there holds `value`, and every other path leads to what it
    /// led to.
    pub open spec fn written_from(self, before: Node, bits: Seq<bool>, level: nat, value: nat)
        -> bool {
        forall|q: Seq<bool>|
            q.len() == bits.len() ==> #[trigger] self.lookup(q, level) == (if agree_from(
                q,
                bits,
                level,
            ) {
                Some(value)
            } else {
                before.lookup(q, level)
            })
    }

    /// A well-formed node holds the hash of its subtree.
    pub proof fn lemma_well_formed_data(self, height: nat)
        requires
            self.well_formed(height),
        ensures
            self.spec_hash() == self.node_type.spec_data(),
    {
    }

    /// Below a well-formed node a leaf is stored: at a path that takes the
    /// steps of `bits` above `level`.
    pub proof fn lemma_stored_leaf(self, bits: Seq<bool>, level: nat) -> (q: Seq<bool>)
        requires
            level <= bits.len(),
            self.well_formed((bits.len() - level) as nat),
        ensures
            q.len() == bits.len(),
            forall|i: int| 0 <= i < level ==> q[i] == bits[i],
            self.lookup(q, level) is Some,
        decreases bits.len() - level,
    {
        if level == bits.len() {
            bits
        } else {
            let go_right = self.left is None;
            let next = *self.child(go_right).unwrap();
            let stepped = bits.update(level as int, go_right);
            let q = next.lemma_stored_leaf(stepped, level + 1);
            assert(q[level as int] == go_right);
            q
        }
    }

    /// What is stored at a path below a node at `level` depends on the steps
    /// from `level` on only.
    pub proof fn lemma_lookup_reads_steps_below(self, p: Seq<bool>, q: Seq<bool>, level: nat)
        requires
            p.len() == q.len(),
            agree_from(p, q, level),
        ensures
            self.lookup(p, level) == self.lookup(q, level),
        decreases q.len() - level,
    {
        if level < q.len() {
            assert(p[level as int] == q[level as int]);
            match self.child(q[level as int]) {
                Some(next) => {
                    next.lemma_lookup_reads_steps_below(p, q, level + 1);
                },
                None => {},
            }
        }
    }

    /// A well-formed node on the path to a stored leaf holds what the value
    /// of the leaf and the siblings below the node fold to.
    pub proof fn lemma_path_folds(self, bits: Seq<bool>, path: nat, level: nat)
        requires
            level <= bits.len(),
            self.well_formed((bits.len() - level) as nat),
            forall|i: int| 0 <= i < bits.len() ==> bits[i] == nat_bit(path, i as nat),
            self.lookup(bits, level) is Some,
        ensures
            self.node_type.spec_data() == fold_path(
                self.lookup(bits, level).unwrap(),
                self.path_siblings(bits, level),
                path,
                level,
            ),
        decreases bits.len() - level,
    {
        if level < bits.len() {
            let go_right = bits[level as int];
            let below = (bits.len() - level - 1) as nat;
            let next = *self.child(go_right).unwrap();
            let siblings = self.path_siblings(bits, level);
            next.lemma_path_folds(bits, path, level + 1);
            next.lemma_well_formed_data(below);
            assert(siblings.drop_first() =~= next.path_siblings(bits, level + 1));
            assert(siblings[0] == self.sibling_value(go_right, level + 1 == bits.len()));
            assert(next.well_formed(below));
            assert(next.node_type is Leaf <==> below == 0);
            if self.child(!go_right) is Some {
                let sibling = *self.child(!go_right).unwrap();
                assert(sibling.well_formed(below));
                assert(sibling.node_type is Leaf <==> below == 0);
                sibling.lemma_well_formed_data(below);
            }
            assert(self.spec_is_last_inner() == (level + 1 == bits.len()));
            assert(self.node_type.spec_data() == self.spec_hash());
        } else {
            assert(self.path_siblings(bits, level) =~= Seq::<nat>::empty());
        }
    }

    /// Below a well-formed node that stores no leaf off the path `bits`, every
    /// sibling along the path counts with its canonical value.
    pub proof fn lemma_lone_path_siblings(self, bits: Seq<bool>, level: nat)
        requires
            level <= bits.len(),
            self.well_formed((bits.len() - level) as nat),
            forall|q: Seq<bool>|
                q.len() == bits.len() && (#[trigger] self.lookup(q, level)) is Some ==> agree_from(
                    q,
                    bits,
                    level,
                ),
        ensures
            self.lookup(bits, level) is Some,
            self.path_siblings(bits, level) == vacant_siblings(bits.len(), level),
        decreases bits.len() - level,
    {
        if level < bits.len() {
            let go_right = bits[level as int];
            if self.child(!go_right) is Some {
                let turned = bits.update(level as int, !go_right);
                let q = self.child(!go_right).unwrap().lemma_stored_leaf(turned, level + 1);
                assert(q[level as int] == !go_right);
                assert(self.lookup(q, level) is Some);
                assert(false);
            }
            let next = *self.child(go_right).unwrap();
            assert forall|q: Seq<bool>|
                q.len() == bits.len() && (#[trigger] next.lookup(q, level + 1)) is Some implies agree_from(
                q,
                bits,
                level + 1,
            ) by {
                let turned = q.update(level as int, go_right);
                next.lemma_lookup_reads_steps_below(turned, q, level + 1);
                assert(self.lookup(turned, level) == next.lookup(turned, level + 1));
                assert(agree_from(turned, bits, level));
                assert forall|i: int| level + 1 <= i < bits.len() implies q[i] == bits[i] by {
                    assert(turned[i] == bits[i]);
                }
            }
            next.lemma_lone_path_siblings(bits, level + 1);
            assert(self.path_siblings(bits, level) =~= vacant_siblings(bits.len(), level));
        } else {
            assert(self.path_siblings(bits, level) =~= vacant_siblings(bits.len(), level));
        }
    }

    /// Two well-formed subtrees of one height that store the same leaves are
    /// the same subtree.
    pub proof fn lemma_same_leaves_same_node(self, other: Node, length: nat, level: nat)
        requires
            level <= length,
            self.well_formed((length - level) as nat),
            other.well_formed((length - level) as nat),
            forall|q: Seq<bool>|
                q.len() == length ==> #[trigger] self.lookup(q, level) == other.lookup(q, level),
        ensures
            self == other,
        decreases length - level,
    {
        let all_left = Seq::new(length, |i: int| false);
        if level == length {
            assert(self.lookup(all_left, level) == other.lookup(all_left, level));
            FieldElement::lemma_view_injective(self.node_type->Leaf_0, other.node_type->Leaf_0);
        } else {
            self.lemma_same_child(other, length, level, false);
            self.lemma_same_child(other, length, level, true);
            assert(self.spec_hash() == other.spec_hash());
            FieldElement::lemma_view_injective(self.node_type->Inner_0, other.node_type->Inner_0);
        }
    }

    /// Two well-formed subtrees of one height that store the same leaves
    /// have the same child on either side.
    proof fn lemma_same_child(self, other: Node, length: nat, level: nat, go_right: bool)
        requires
            level < length,
            self.well_formed((length - level) as nat),
            other.well_formed((length - level) as nat),
            forall|q: Seq<bool>|
                q.len() == length ==> #[trigger] self.lookup(q, level) == other.lookup(q, level),
        ensures
            self.child(go_right) == other.child(go_right),
        decreases length - level, 0nat,
    {
        let all_left = Seq::new(length, |i: int| false);
        let stepped = all_left.update(level as int, go_right);
        if self.child(go_right) is Some {
            let q = self.child(go_right).unwrap().lemma_stored_leaf(stepped, level + 1);
            assert(q[level as int] == go_right);
            assert(self.lookup(q, level) == other.lookup(q, level));
        }
        if other.child(go_right) is Some {
            let q = other.child(go_right).unwrap().lemma_stored_leaf(stepped, level + 1);
            assert(q[level as int] == go_right);
            assert(self.lookup(q, level) == other.lookup(q, level));
        }
        if self.child(go_right) is Some {
            let mine = *self.child(go_right).unwrap();
            let theirs = *other.child(go_right).unwrap();
            assert forall|q: Seq<bool>| q.len() == length implies #[trigger] mine.lookup(
                q,
                level + 1,
            ) == theirs.lookup(q, level + 1) by {
                let turned = q.update(level as int, go_right);
                assert(self.lookup(turned, level) == other.lookup(turned, level));
                mine.lemma_lookup_reads_steps_below(turned, q, level + 1);
                theirs.lemma_lookup_reads_steps_below(turned, q, level + 1);
            }
            mine.lemma_same_leaves_same_node(theirs, length, level + 1);
        }
    }

    /// Writes `value` at the path `bits` below this node, which stands at
    /// `level`, and renews the hashes on the way back up. Without a hasher
    /// that takes pairs nothing is written.
    pub(crate) fn insert_below(
        &mut self,
        bits: &Vec<bool>,
        level: usize,
        value: FieldElement,
        hasher: &mut Hasher,
    ) -> (r: Result<(), PoseidonError>)
        requires
            level < bits@.len(),
            old(self).writable((bits@.len() - level) as nat),
        ensures
            *final(hasher) == *old(hasher),
            r is Ok <==> old(hasher).accepts_pairs(),
            r is Err ==> *final(self) == *old(self),
            r is Ok ==> final(self).well_formed((bits@.len() - level) as nat),
            r is Ok ==> final(self).written_from(*old(self), bits@, level as nat, value@),
        decreases bits@.len() - level,
    {
        let ghost before = *self;
        let ghost height = (bits@.len() - level) as nat;
        let go_right = bits[level];
        if level == bits.len() - 1 {
            let beside = match if go_right { &self.left } else { &self.right } {
                Some(sibling) => *sibling.node_type.data(),
                None => FieldElement::zero(),
            };
            let joined = if go_right {
                hasher.hash_pair(&beside, &value)
            } else {
                hasher.hash_pair(&value, &beside)
            };
            match joined {
                Err(e) => Err(e),
                Ok(hash) => {
                    let leaf = Some(Node::new_borrowed_leaf(value));
                    if go_right {
                        self.right = leaf;
                    } else {
                        self.left = leaf;
                    }
                    self.node_type = NodeType::Inner(hash);
                    proof {
                        let after = *self;
                        assert(height == 1);
                        assert(after.child(go_right).unwrap().well_formed(0));
                        after.child(go_right).unwrap().lemma_well_formed_data(0);
                        if after.child(!go_right) is Some {
                            assert(before.well_formed(1));
                            assert(after.child(!go_right) == before.child(!go_right));
                            assert(after.child(!go_right).unwrap().well_formed(0));
                            after.child(!go_right).unwrap().lemma_well_formed_data(0);
                        }
                        assert(after.spec_is_last_inner());
                        assert(after.node_type.spec_data() == after.spec_hash());
                        assert(after.well_formed(height));
                        assert forall|q: Seq<bool>| q.len() == bits@.len() implies #[trigger] after.lookup(
                            q,
                            level as nat,
                        ) == (if agree_from(q, bits@, level as nat) {
                            Some(value@)
                        } else {
                            before.lookup(q, level as nat)
                        }) by {
                            if q[level as int] == go_right {
                                assert(agree_from(q, bits@, level as nat));
                                assert(after.child(go_right).unwrap().lookup(q, (level + 1) as nat)
                                    == Some(value@));
                            } else {
                                assert(!agree_from(q, bits@, level as nat));
                            }
                        }
                    }
                    Ok(())
                },
            }
        } else {
            let taken = if go_right {
                self.right.take()
            } else {
                self.left.take()
            };
            let was_stored = taken.is_some();
            let mut next: Box<Node> = match taken {
                Some(stored) => stored,
                None => Node::new_borrowed_empty_inner(),
            };
            let ghost next_before = *next;
            proof {
                let below = (height - 1) as nat;
                assert(below > 0);
                if was_stored {
                    assert(before.well_formed(height));
                    assert(before.child(go_right) == Some(next));
                    assert(next_before.well_formed(below));
                }
                assert(next_before.writable(below));
            }
            match next.insert_below(bits, level + 1, value, hasher) {
                Err(e) => {
                    if was_stored {
                        if go_right {
                            self.right = Some(next);
                        } else {
                            self.left = Some(next);
                        }
                    }
                    Err(e)
                },
                Ok(()) => {
                    let beside = match if go_right { &self.left } else { &self.right } {
                        Some(sibling) => *sibling.node_type.data(),
                        None => get_empty_inner_hash(),
                    };
                    let joined = if go_right {
                        hasher.hash_pair(&beside, next.node_type.data())
                    } else {
                        hasher.hash_pair(next.node_type.data(), &beside)
                    };
                    match joined {
                        Err(_) => unreached(),
                        Ok(hash) => {
                            let ghost next_after = *next;
                            if go_right {
                                self.right = Some(next);
                            } else {
                                self.left = Some(next);
                            }
                            self.node_type = NodeType::Inner(hash);
                            proof {
                                let after = *self;
                                let below = (height - 1) as nat;
                                next_after.lemma_well_formed_data(below);
                                assert(next_after.node_type is Inner);
                                if after.child(!go_right) is Some {
                                    assert(before.well_formed(height));
                                    assert(after.child(!go_right) == before.child(!go_right));
                                    let sibling = *after.child(!go_right).unwrap();
                                    assert(sibling.well_formed(below));
                                    sibling.lemma_well_formed_data(below);
                                    assert(sibling.node_type is Inner);
                                }
                                assert(!after.spec_is_last_inner());
                                assert(after.node_type.spec_data() == after.spec_hash());
                                assert(after.well_formed(height));
                                assert forall|q: Seq<bool>|
                                    q.len() == bits@.len() implies #[trigger] after.lookup(
                                    q,
                                    level as nat,
                                ) == (if agree_from(q, bits@, level as nat) {
                                    Some(value@)
                                } else {
                                    before.lookup(q, level as nat)
                                }) by {
                                    if q[level as int] == go_right {
                                        assert(agree_from(q, bits@, level as nat) == agree_from(
                                            q,
                                            bits@,
                                            (level + 1) as nat,
                                        ));
                                        assert(after.lookup(q, level as nat) == next_after.lookup(
                                            q,
                                            (level + 1) as nat,
                                        ));
                                        if !was_stored {
                                            assert(next_before.lookup(q, (level + 1) as nat) is None);
                                        }
                                    } else {
                                        assert(!agree_from(q, bits@, level as nat));
                                    }
                                }
                            }
                            Ok(())
                        },
                    }
                },
            }
        }
    }
}

} // verus!
