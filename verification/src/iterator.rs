//! Walking the stored leaves of a tree from left to right.

use crate::field::FieldElement;
use crate::node::{Node, NodeType};
use crate::tree::SparseMerkleTree;
use vstd::prelude::*;

verus! {

impl Node {
    /// The values of the leaves that are stored below this node, from left
    /// to right. A leaf gives its own value, whatever stands below it.
    pub open spec fn leaf_values(self) -> Seq<nat>
        decreases self,
    {
        match self.node_type {
            NodeType::Leaf(value) => seq![value@],
            NodeType::Inner(_) => (match self.left {
                Some(child) => child.leaf_values(),
                None => Seq::empty(),
            }) + (match self.right {
                Some(child) => child.leaf_values(),
                None => Seq::empty(),
            }),
        }
    }

    /// The number of nodes that are stored below this node, itself included.
    pub open spec fn size(self) -> nat
        decreases self,
    {
        1 + (match self.left {
            Some(child) => child.size(),
            None => 0,
        }) + (match self.right {
            Some(child) => child.size(),
            None => 0,
        })
    }
}

/// The values that `leaves` holds at the paths of `depth` steps that begin
/// with `prefix`, in the order of the paths: where two paths part, the one
/// that turns left comes first.
pub open spec fn values_under(leaves: Map<Seq<bool>, nat>, prefix: Seq<bool>, depth: nat) -> Seq<
    nat,
>
    decreases depth - prefix.len(),
{
    if prefix.len() >= depth {
        if leaves.contains_key(prefix) {
            seq![leaves[prefix]]
        } else {
            Seq::empty()
        }
    } else {
        values_under(leaves, prefix.push(false), depth) + values_under(
            leaves,
            prefix.push(true),
            depth,
        )
    }
}

/// Where `leaves` holds no path that begins with `prefix`, it holds no value
/// under it.
pub proof fn lemma_no_values_under(leaves: Map<Seq<bool>, nat>, prefix: Seq<bool>, depth: nat)
    requires
        prefix.len() <= depth,
        forall|q: Seq<bool>|
            q.len() == depth && q.take(prefix.len() as int) == prefix ==> !leaves.contains_key(q),
    ensures
        values_under(leaves, prefix, depth) == Seq::<nat>::empty(),
    decreases depth - prefix.len(),
{
    if prefix.len() == depth {
        assert(prefix.take(prefix.len() as int) =~= prefix);
    } else {
        lemma_no_values_under_side(leaves, prefix, depth, false);
        lemma_no_values_under_side(leaves, prefix, depth, true);
    }
}

proof fn lemma_no_values_under_side(
    leaves: Map<Seq<bool>, nat>,
    prefix: Seq<bool>,
    depth: nat,
    go_right: bool,
)
    requires
        prefix.len() < depth,
        forall|q: Seq<bool>|
            q.len() == depth && q.take(prefix.len() as int) == prefix ==> !leaves.contains_key(q),
    ensures
        values_under(leaves, prefix.push(go_right), depth) == Seq::<nat>::empty(),
    decreases depth - prefix.len(), 0nat,
{
    let longer = prefix.push(go_right);
    assert forall|q: Seq<bool>|
        q.len() == depth && q.take(longer.len() as int) == longer implies !leaves.contains_key(
        q,
    ) by {
        assert(q.take(prefix.len() as int) =~= longer.take(prefix.len() as int));
        assert(longer.take(prefix.len() as int) =~= prefix);
    }
    lemma_no_values_under(leaves, longer, depth);
}

impl Node {
    /// Below a well-formed node at the end of `prefix`, the leaves from left
    /// to right are the values at the paths that begin with `prefix`, in
    /// the order of the paths.
    pub proof fn lemma_leaf_values_in_path_order(
        self,
        leaves: Map<Seq<bool>, nat>,
        prefix: Seq<bool>,
        depth: nat,
    )
        requires
            prefix.len() <= depth,
            self.well_formed((depth - prefix.len()) as nat),
            forall|q: Seq<bool>|
                q.len() == depth && q.take(prefix.len() as int) == prefix ==> (
                leaves.contains_key(q) <==> (#[trigger] self.lookup(q, prefix.len())) is Some),
            forall|q: Seq<bool>|
                q.len() == depth && q.take(prefix.len() as int) == prefix && leaves.contains_key(q)
                    ==> (#[trigger] self.lookup(q, prefix.len())) == Some(leaves[q]),
        ensures
            self.leaf_values() == values_under(leaves, prefix, depth),
        decreases depth - prefix.len(),
    {
        let level = prefix.len();
        if level == depth {
            assert(prefix.take(level as int) =~= prefix);
            assert(self.lookup(prefix, level) is Some);
        } else {
            self.lemma_side_in_path_order(leaves, prefix, depth, false);
            self.lemma_side_in_path_order(leaves, prefix, depth, true);
        }
    }

    proof fn lemma_side_in_path_order(
        self,
        leaves: Map<Seq<bool>, nat>,
        prefix: Seq<bool>,
        depth: nat,
        go_right: bool,
    )
        requires
            prefix.len() < depth,
            self.well_formed((depth - prefix.len()) as nat),
            forall|q: Seq<bool>|
                q.len() == depth && q.take(prefix.len() as int) == prefix ==> (
                leaves.contains_key(q) <==> (#[trigger] self.lookup(q, prefix.len())) is Some),
            forall|q: Seq<bool>|
                q.len() == depth && q.take(prefix.len() as int) == prefix && leaves.contains_key(q)
                    ==> (#[trigger] self.lookup(q, prefix.len())) == Some(leaves[q]),
        ensures
            values_under(leaves, prefix.push(go_right), depth) == (match self.child(go_right) {
                Some(next) => next.leaf_values(),
                None => Seq::empty(),
            }),
        decreases depth - prefix.len(), 0nat,
    {
        let level = prefix.len();
        let longer = prefix.push(go_right);
        assert forall|q: Seq<bool>|
            q.len() == depth && q.take(longer.len() as int) == longer implies q.take(level as int)
            == prefix && q[level as int] == go_right by {
            assert(q.take(level as int) =~= longer.take(level as int));
            assert(longer.take(level as int) =~= prefix);
            assert(q.take(longer.len() as int)[level as int] == go_right);
        }
        match self.child(go_right) {
            Some(next) => {
                assert forall|q: Seq<bool>|
                    q.len() == depth && q.take(longer.len() as int) == longer implies (
                    leaves.contains_key(q) <==> (#[trigger] next.lookup(q, longer.len()))
                        is Some) by {
                    assert(self.lookup(q, level) == next.lookup(q, level + 1));
                }
                assert forall|q: Seq<bool>|
                    q.len() == depth && q.take(longer.len() as int) == longer
                        && leaves.contains_key(q) implies (#[trigger] next.lookup(q, longer.len()))
                    == Some(leaves[q]) by {
                    assert(self.lookup(q, level) == next.lookup(q, level + 1));
                }
                next.lemma_leaf_values_in_path_order(leaves, longer, depth);
            },
            None => {
                assert forall|q: Seq<bool>|
                    q.len() == depth && q.take(longer.len() as int)
                        == longer implies !leaves.contains_key(q) by {
                    assert(self.lookup(q, level) is None);
                }
                lemma_no_values_under(leaves, longer, depth);
            },
        }
    }
}

/// The values of the leaves below the nodes of a stack, the top of the
/// stack, which is its last node, first.
pub open spec fn stack_values(stack: Seq<Node>) -> Seq<nat>
    decreases stack.len(),
{
    if stack.len() == 0 {
        Seq::empty()
    } else {
        stack.last().leaf_values() + stack_values(stack.drop_last())
    }
}

/// The number of nodes that are stored below the nodes of a stack.
pub open spec fn stack_size(stack: Seq<Node>) -> nat
    decreases stack.len(),
{
    if stack.len() == 0 {
        0
    } else {
        stack.last().size() + stack_size(stack.drop_last())
    }
}

/// A node that is pushed on a stack comes first, before all that the stack
/// held.
pub proof fn lemma_stack_push(stack: Seq<Node>, node: Node)
    ensures
        stack_values(stack.push(node)) == node.leaf_values() + stack_values(stack),
        stack_size(stack.push(node)) == node.size() + stack_size(stack),
{
    assert(stack.push(node).drop_last() =~= stack);
    assert(stack.push(node).last() == node);
}

/// The nodes that a stack of references refers to.
pub open spec fn referred(stack: Seq<&Node>) -> Seq<Node> {
    stack.map_values(|node: &Node| *node)
}

/// The nodes that a stack of boxes holds.
pub open spec fn unboxed(stack: Seq<Box<Node>>) -> Seq<Node> {
    stack.map_values(|node: Box<Node>| *node)
}

/// Walks the leaves of a tree that it borrows.
#[derive(Debug, Clone)]
pub struct SparseTreeRefIterator<'a> {
    stack: Vec<&'a Node>,
}

/// Walks the leaves of a tree that it owns.
#[derive(Debug)]
pub struct SparseTreeIterator {
    stack: Vec<Box<Node>>,
}

impl<'a> SparseTreeRefIterator<'a> {
    /// The values that are still to come, in their order.
    pub closed spec fn remaining(self) -> Seq<nat> {
        stack_values(referred(self.stack@))
    }

    /// The value of the next leaf from the left, or `None` when all were
    /// given.
    pub fn next(&mut self) -> (r: Option<FieldElement>)
        ensures
            match r {
                Some(value) => old(self).remaining() == seq![value@] + final(self).remaining(),
                None => old(self).remaining().len() == 0 && final(self).remaining().len() == 0,
            },
    {
        loop
            invariant
                self.remaining() == old(self).remaining(),
            decreases stack_size(referred(self.stack@)),
        {
            let ghost before = referred(self.stack@);
            let node: &Node = match self.stack.pop() {
                Some(node) => node,
                None => {
                    return None;
                },
            };
            let ghost popped = referred(self.stack@);
            assert(popped =~= before.drop_last());
            assert(before.last() == *node);
            if let NodeType::Leaf(value) = node.node_type {
                return Some(value);
            }
            if let Some(right) = &node.right {
                self.stack.push(&**right);
                proof {
                    lemma_stack_push(popped, **right);
                    assert(referred(self.stack@) =~= popped.push(**right));
                }
            }
            let ghost with_right = referred(self.stack@);
            if let Some(left) = &node.left {
                self.stack.push(&**left);
                proof {
                    lemma_stack_push(with_right, **left);
                    assert(referred(self.stack@) =~= with_right.push(**left));
                }
            }
            assert(stack_values(referred(self.stack@)) =~= node.leaf_values() + stack_values(
                popped,
            ));
        }
    }
}

impl SparseTreeIterator {
    /// The values that are still to come, in their order.
    pub closed spec fn remaining(self) -> Seq<nat> {
        stack_values(unboxed(self.stack@))
    }

    /// The value of the next leaf from the left, or `None` when all were
    /// given.
    pub fn next(&mut self) -> (r: Option<FieldElement>)
        ensures
            match r {
                Some(value) => old(self).remaining() == seq![value@] + final(self).remaining(),
                None => old(self).remaining().len() == 0 && final(self).remaining().len() == 0,
            },
    {
        loop
            invariant
                self.remaining() == old(self).remaining(),
            decreases stack_size(unboxed(self.stack@)),
        {
            let ghost before = unboxed(self.stack@);
            let node: Box<Node> = match self.stack.pop() {
                Some(node) => node,
                None => {
                    return None;
                },
            };
            let ghost popped = unboxed(self.stack@);
            let ghost top = *node;
            assert(popped =~= before.drop_last());
            assert(before.last() == top);
            if let NodeType::Leaf(value) = node.node_type {
                return Some(value);
            }
            let Node { node_type: _, left, right } = *node;
            if let Some(right) = right {
                proof {
                    lemma_stack_push(popped, *right);
                }
                self.stack.push(right);
                assert(unboxed(self.stack@) =~= popped.push(*top.right.unwrap()));
            }
            let ghost with_right = unboxed(self.stack@);
            if let Some(left) = left {
                proof {
                    lemma_stack_push(with_right, *left);
                }
                self.stack.push(left);
                assert(unboxed(self.stack@) =~= with_right.push(*top.left.unwrap()));
            }
            assert(stack_values(unboxed(self.stack@)) =~= top.leaf_values() + stack_values(popped));
        }
    }
}

impl SparseMerkleTree {
    /// The values of the stored leaves, from left to right: a leaf whose
    /// path turns left at the first level where two paths part comes first.
    pub open spec fn spec_leaf_values(self) -> Seq<nat> {
        self.spec_root().leaf_values()
    }

    /// The leaves of a tree, walked from left to right, are the values of
    /// its view in the order of their paths.
    pub proof fn lemma_leaf_values_are_the_view(self)
        requires
            self.wf(),
        ensures
            self.spec_leaf_values() == values_under(self@, Seq::empty(), self.spec_depth()),
    {
        let root = self.spec_root();
        let none = Seq::<bool>::empty();
        if root.left is None && root.right is None {
            self.lemma_nothing_written();
            lemma_no_values_under(self@, none, self.spec_depth());
            assert(root.leaf_values() =~= Seq::<nat>::empty());
        } else {
            root.lemma_leaf_values_in_path_order(self@, none, self.spec_depth());
        }
    }

    /// An iterator over the values of the stored leaves, from left to right.
    pub fn iter(&self) -> (it: SparseTreeRefIterator<'_>)
        ensures
            it.remaining() == self.spec_leaf_values(),
            self.wf() ==> it.remaining() == values_under(
                self@,
                Seq::empty(),
                self.spec_depth(),
            ),
    {
        proof {
            if self.wf() {
                self.lemma_leaf_values_are_the_view();
            }
        }
        let mut stack: Vec<&Node> = Vec::new();
        stack.push(self.root());
        proof {
            lemma_stack_push(Seq::<Node>::empty(), self.spec_root());
            assert(referred(stack@) =~= Seq::<Node>::empty().push(self.spec_root()));
            assert(stack_values(referred(stack@)) =~= self.spec_root().leaf_values());
        }
        SparseTreeRefIterator { stack }
    }

    /// An iterator over the values of the stored leaves, from left to
    /// right, that takes the tree.
    pub fn into_iter(self) -> (it: SparseTreeIterator)
        ensures
            it.remaining() == self.spec_leaf_values(),
            self.wf() ==> it.remaining() == values_under(
                self@,
                Seq::empty(),
                self.spec_depth(),
            ),
    {
        proof {
            if self.wf() {
                self.lemma_leaf_values_are_the_view();
            }
        }
        let mut stack: Vec<Box<Node>> = Vec::new();
        let ghost root = self.spec_root();
        stack.push(Box::new(self.into_root()));
        proof {
            lemma_stack_push(Seq::<Node>::empty(), root);
            assert(unboxed(stack@) =~= Seq::<Node>::empty().push(root));
            assert(stack_values(unboxed(stack@)) =~= root.leaf_values());
        }
        SparseTreeIterator { stack }
    }
}

} // verus!
