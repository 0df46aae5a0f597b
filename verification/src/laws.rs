//! What holds of the tree and its inclusion proofs across operations.

use crate::constants::empty_inner_hash;
use crate::field::{le_bits_value, lemma_nat_bit_of_le_bits_value, nat_bit, FieldElement};
use crate::hasher::{field_values, poseidon2};
use crate::merkle_proof::{fold_path, MerkleProof};
use crate::subtree::{agree_from, vacant_siblings};
use crate::tree::SparseMerkleTree;
use vstd::prelude::*;

verus! {

/// A tree in which nothing was written holds the canonical empty hash at its
/// root, and so counts as empty.
pub proof fn law_unwritten_tree_is_empty(tree: SparseMerkleTree)
    requires
        tree.wf(),
        tree.spec_root().is_empty_inner(),
    ensures
        tree.spec_root_hash() == empty_inner_hash(),
        tree.spec_is_empty(),
        tree@ == Map::<Seq<bool>, nat>::empty(),
{
    tree.lemma_nothing_written();
}

/// After a value was written at a path, the path is stored and holds that
/// value.
pub proof fn law_written_value_is_read(
    before: SparseMerkleTree,
    after: SparseMerkleTree,
    path: FieldElement,
    value: FieldElement,
)
    requires
        after.spec_depth() == before.spec_depth(),
        after@ == before@.insert(before.key(path), value@),
    ensures
        after@.contains_key(after.key(path)),
        after@[after.key(path)] == value@,
{
}

/// After a path was deleted, it is still stored and holds zero. Every other
/// path holds what it held.
pub proof fn law_deleted_value_is_zero(
    before: SparseMerkleTree,
    after: SparseMerkleTree,
    path: FieldElement,
    other: Seq<bool>,
)
    requires
        after.spec_depth() == before.spec_depth(),
        after@ == before@.insert(before.key(path), 0),
        other != before.key(path),
    ensures
        after@.contains_key(after.key(path)),
        after@[after.key(path)] == 0,
        after@.contains_key(other) == before@.contains_key(other),
        before@.contains_key(other) ==> after@[other] == before@[other],
{
}

/// A tree that stores one leaf only holds at its root what the value of that
/// leaf folds to with the canonical siblings. So a tree whose one leaf was
/// deleted counts as empty only where zero folds to the canonical empty
/// hash.
pub proof fn law_root_of_single_leaf(tree: SparseMerkleTree, path: FieldElement, value: nat)
    requires
        tree.wf(),
        tree@ == Map::<Seq<bool>, nat>::empty().insert(tree.key(path), value),
    ensures
        tree.spec_root_hash() == fold_path(value, vacant_siblings(tree.spec_depth(), 0), path@, 0),
        tree.spec_is_empty() <==> fold_path(
            value,
            vacant_siblings(tree.spec_depth(), 0),
            path@,
            0,
        ) == empty_inner_hash(),
{
    let key = tree.key(path);
    let root = tree.spec_root();
    assert(tree@.contains_key(key));
    assert(tree@[key] == value);
    assert(root.lookup(key, 0) == Some(value));
    assert forall|q: Seq<bool>|
        q.len() == key.len() && (#[trigger] root.lookup(q, 0)) is Some implies agree_from(
        q,
        key,
        0,
    ) by {
        assert(tree@.contains_key(q));
        assert(q == key);
    }
    root.lemma_lone_path_siblings(key, 0);
    root.lemma_path_folds(key, path@, 0);
}

/// Reading the steps of a path back from the field element that was made
/// from them gives the same steps.
pub proof fn law_steps_are_read_back(bits: Seq<bool>, i: int)
    requires
        0 <= i < bits.len(),
    ensures
        nat_bit(le_bits_value(bits), i as nat) == bits[i],
{
    lemma_nat_bit_of_le_bits_value(bits, i);
}

/// The field element made from the steps of a path names that path in a
/// tree of as many levels.
pub proof fn law_path_names_its_steps(tree: SparseMerkleTree, bits: Seq<bool>, path: FieldElement)
    requires
        bits.len() == tree.spec_depth(),
        path@ == le_bits_value(bits),
    ensures
        tree.key(path) == bits,
{
    assert forall|i: int| 0 <= i < bits.len() implies tree.key(path)[i] == bits[i] by {
        lemma_nat_bit_of_le_bits_value(bits, i);
    }
    assert(tree.key(path) =~= bits);
}

/// The inclusion proof that a tree generates for a stored leaf is valid: its
/// leaf value and siblings fold to the root hash of the tree.
pub proof fn law_generated_proof_is_valid(
    tree: SparseMerkleTree,
    path: FieldElement,
    made: MerkleProof,
)
    requires
        tree.wf(),
        tree@.contains_key(tree.key(path)),
        made.merkle_path == path,
        made.leaf_value@ == tree@[tree.key(path)],
        made.root_hash@ == tree.spec_root_hash(),
        field_values(made.siblings@) == tree.spec_root().path_siblings(tree.key(path), 0),
    ensures
        made.spec_valid(),
{
    tree.spec_root().lemma_path_folds(tree.key(path), path@, 0);
}

/// A valid proof with another root hash put in its place is not valid.
pub proof fn law_changed_root_is_refused(made: MerkleProof, changed: MerkleProof)
    requires
        made.spec_valid(),
        changed.merkle_path == made.merkle_path,
        changed.leaf_value == made.leaf_value,
        changed.siblings == made.siblings,
        changed.root_hash@ != made.root_hash@,
    ensures
        !changed.spec_valid(),
{
}

/// The two inputs of the hash that joins a child on the path with the child
/// beside it, left one first.
pub open spec fn joined_pair(go_right: bool, below: nat, sibling: nat) -> (nat, nat) {
    if go_right {
        (sibling, below)
    } else {
        (below, sibling)
    }
}

/// Whether folding two leaf values with two lists of siblings along one
/// path never hashes two different pairs to the same digest.
pub open spec fn folds_without_collision(
    leaf: nat,
    siblings: Seq<nat>,
    other_leaf: nat,
    other_siblings: Seq<nat>,
    path: nat,
    level: nat,
) -> bool
    decreases siblings.len(),
{
    if siblings.len() == 0 || other_siblings.len() != siblings.len() {
        true
    } else {
        let pair = joined_pair(
            nat_bit(path, level),
            fold_path(leaf, siblings.drop_first(), path, level + 1),
            siblings[0],
        );
        let other_pair = joined_pair(
            nat_bit(path, level),
            fold_path(other_leaf, other_siblings.drop_first(), path, level + 1),
            other_siblings[0],
        );
        &&& (poseidon2(pair.0, pair.1) == poseidon2(other_pair.0, other_pair.1) ==> pair
            == other_pair)
        &&& folds_without_collision(
            leaf,
            siblings.drop_first(),
            other_leaf,
            other_siblings.drop_first(),
            path,
            level + 1,
        )
    }
}

/// Where no two different pairs collide on the way, two folds along one
/// path give the same result only from the same leaf value and the same
/// siblings.
pub proof fn lemma_fold_path_injective(
    leaf: nat,
    siblings: Seq<nat>,
    other_leaf: nat,
    other_siblings: Seq<nat>,
    path: nat,
    level: nat,
)
    requires
        siblings.len() == other_siblings.len(),
        folds_without_collision(leaf, siblings, other_leaf, other_siblings, path, level),
        fold_path(leaf, siblings, path, level) == fold_path(
            other_leaf,
            other_siblings,
            path,
            level,
        ),
    ensures
        leaf == other_leaf,
        siblings == other_siblings,
    decreases siblings.len(),
{
    if siblings.len() == 0 {
        assert(siblings =~= other_siblings);
    } else {
        lemma_fold_path_injective(
            leaf,
            siblings.drop_first(),
            other_leaf,
            other_siblings.drop_first(),
            path,
            level + 1,
        );
        assert(siblings =~= seq![siblings[0]] + siblings.drop_first());
        assert(other_siblings =~= seq![other_siblings[0]] + other_siblings.drop_first());
    }
}

/// A valid proof in which the leaf value or any of the siblings was changed
/// is not valid, unless the change makes two different pairs collide under
/// Poseidon on the way up.
pub proof fn law_changed_leaf_or_sibling_is_refused(made: MerkleProof, changed: MerkleProof)
    requires
        made.spec_valid(),
        changed.merkle_path == made.merkle_path,
        changed.root_hash@ == made.root_hash@,
        changed.siblings@.len() == made.siblings@.len(),
        changed.leaf_value@ != made.leaf_value@ || field_values(changed.siblings@) != field_values(
            made.siblings@,
        ),
        folds_without_collision(
            made.leaf_value@,
            field_values(made.siblings@),
            changed.leaf_value@,
            field_values(changed.siblings@),
            made.merkle_path@,
            0,
        ),
    ensures
        !changed.spec_valid(),
{
    if changed.spec_valid() {
        lemma_fold_path_injective(
            made.leaf_value@,
            field_values(made.siblings@),
            changed.leaf_value@,
            field_values(changed.siblings@),
            made.merkle_path@,
            0,
        );
    }
}

/// Two trees of one depth that store the same leaves have the same root,
/// and so the same root hash, however they came to store them.
pub proof fn law_same_leaves_same_root(one: SparseMerkleTree, other: SparseMerkleTree)
    requires
        one.wf(),
        other.wf(),
        one.spec_depth() == other.spec_depth(),
        one@ == other@,
    ensures
        one.spec_root() == other.spec_root(),
        one.spec_root_hash() == other.spec_root_hash(),
{
    let depth = one.spec_depth();
    let mine = one.spec_root();
    let theirs = other.spec_root();
    one.lemma_written_root_stores_a_leaf();
    other.lemma_written_root_stores_a_leaf();
    if mine.left is None && mine.right is None {
        one.lemma_nothing_written();
        FieldElement::lemma_view_injective(mine.node_type->Inner_0, theirs.node_type->Inner_0);
    } else {
        if theirs.left is None && theirs.right is None {
            other.lemma_nothing_written();
        }
        assert forall|q: Seq<bool>| q.len() == depth implies #[trigger] mine.lookup(q, 0)
            == theirs.lookup(q, 0) by {
            assert(one@.contains_key(q) <==> mine.lookup(q, 0) is Some);
            assert(other@.contains_key(q) <==> theirs.lookup(q, 0) is Some);
            if one@.contains_key(q) {
                assert(one@[q] == mine.lookup(q, 0).unwrap());
                assert(other@[q] == theirs.lookup(q, 0).unwrap());
            }
        }
        mine.lemma_same_leaves_same_node(theirs, depth, 0);
    }
}

/// The leaves that a tree stores after the given writes, made one after the
/// other on a tree that stored `start`.
pub open spec fn after_writes(start: Map<Seq<bool>, nat>, writes: Seq<(Seq<bool>, nat)>) -> Map<
    Seq<bool>,
    nat,
>
    decreases writes.len(),
{
    if writes.len() == 0 {
        start
    } else {
        after_writes(start, writes.drop_last()).insert(writes.last().0, writes.last().1)
    }
}

/// Whether no path is written twice.
pub open spec fn distinct_paths(writes: Seq<(Seq<bool>, nat)>) -> bool {
    forall|i: int, j: int| 0 <= i < j < writes.len() ==> writes[i].0 != writes[j].0
}

/// Whether one of the writes goes to `path`.
pub open spec fn writes_to(writes: Seq<(Seq<bool>, nat)>, path: Seq<bool>) -> bool {
    exists|i: int| 0 <= i < writes.len() && (#[trigger] writes[i]).0 == path
}

/// A path that no write goes to is stored after the writes as it was
/// before; a path that a write goes to is stored after them.
pub proof fn lemma_after_writes_elsewhere(
    start: Map<Seq<bool>, nat>,
    writes: Seq<(Seq<bool>, nat)>,
    path: Seq<bool>,
)
    ensures
        after_writes(start, writes).contains_key(path) <==> (start.contains_key(path) || writes_to(
            writes,
            path,
        )),
        !writes_to(writes, path) ==> after_writes(start, writes)[path] == start[path],
    decreases writes.len(),
{
    if writes.len() > 0 {
        let earlier = writes.drop_last();
        lemma_after_writes_elsewhere(start, earlier, path);
        if writes_to(earlier, path) {
            let i = choose|i: int| 0 <= i < earlier.len() && (#[trigger] earlier[i]).0 == path;
            assert(writes[i].0 == path);
        }
        if writes_to(writes, path) && writes.last().0 != path {
            let i = choose|i: int| 0 <= i < writes.len() && (#[trigger] writes[i]).0 == path;
            assert(earlier[i].0 == path);
        }
        if writes.last().0 == path {
            assert(writes[writes.len() - 1].0 == path);
        }
    }
}

/// After writes to distinct paths, each of those paths holds the value that
/// was written there.
pub proof fn lemma_after_writes_at(
    start: Map<Seq<bool>, nat>,
    writes: Seq<(Seq<bool>, nat)>,
    i: int,
)
    requires
        distinct_paths(writes),
        0 <= i < writes.len(),
    ensures
        after_writes(start, writes)[writes[i].0] == writes[i].1,
    decreases writes.len(),
{
    let earlier = writes.drop_last();
    if i < writes.len() - 1 {
        assert(writes[i].0 != writes[writes.len() - 1].0);
        assert(earlier[i] == writes[i]);
        lemma_after_writes_at(start, earlier, i);
    }
}

/// Writes to distinct paths leave the same leaves in whatever order they
/// are made. With the law above, two trees of one depth that started with
/// the same leaves then have the same root hash.
pub proof fn law_writes_in_any_order(
    start: Map<Seq<bool>, nat>,
    writes: Seq<(Seq<bool>, nat)>,
    reordered: Seq<(Seq<bool>, nat)>,
)
    requires
        distinct_paths(writes),
        distinct_paths(reordered),
        writes.to_multiset() == reordered.to_multiset(),
    ensures
        after_writes(start, writes) == after_writes(start, reordered),
{
    let one = after_writes(start, writes);
    let other = after_writes(start, reordered);
    writes.to_multiset_ensures();
    reordered.to_multiset_ensures();
    assert forall|path: Seq<bool>| #[trigger] one.contains_key(path) implies other.contains_key(
        path,
    ) && one[path] == other[path] by {
        lemma_after_writes_elsewhere(start, writes, path);
        lemma_after_writes_elsewhere(start, reordered, path);
        if writes_to(writes, path) {
            let i = choose|i: int| 0 <= i < writes.len() && (#[trigger] writes[i]).0 == path;
            assert(writes.contains(writes[i]));
            assert(writes.to_multiset().count(writes[i]) > 0);
            assert(reordered.to_multiset().count(writes[i]) > 0);
            assert(reordered.contains(writes[i]));
            let j = choose|j: int| 0 <= j < reordered.len() && reordered[j] == writes[i];
            assert(reordered[j].0 == path);
            lemma_after_writes_at(start, writes, i);
            lemma_after_writes_at(start, reordered, j);
        } else if writes_to(reordered, path) {
            let j = choose|j: int| 0 <= j < reordered.len() && (#[trigger] reordered[j]).0 == path;
            assert(reordered.contains(reordered[j]));
            assert(reordered.to_multiset().count(reordered[j]) > 0);
            assert(writes.to_multiset().count(reordered[j]) > 0);
            assert(writes.contains(reordered[j]));
            let i = choose|i: int| 0 <= i < writes.len() && writes[i] == reordered[j];
            assert(writes[i].0 == path);
        }
    }
    assert forall|path: Seq<bool>| #[trigger] other.contains_key(path) implies one.contains_key(
        path,
    ) by {
        lemma_after_writes_elsewhere(start, writes, path);
        lemma_after_writes_elsewhere(start, reordered, path);
        if writes_to(reordered, path) {
            let j = choose|j: int| 0 <= j < reordered.len() && (#[trigger] reordered[j]).0 == path;
            assert(reordered.contains(reordered[j]));
            assert(reordered.to_multiset().count(reordered[j]) > 0);
            assert(writes.to_multiset().count(reordered[j]) > 0);
            assert(writes.contains(reordered[j]));
            let i = choose|i: int| 0 <= i < writes.len() && writes[i] == reordered[j];
            assert(writes[i].0 == path);
        }
    }
    assert(one =~= other);
}

} // verus!
