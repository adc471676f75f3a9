//! A binary tree whose nodes live in an arena of blocks and know their children
//! by handle.

use crate::arena::{Arena, BLOCK_SIZE};
use vstd::prelude::*;

verus! {

/// A node of the tree. It does not know its parent.
pub struct BinaryTreeNode {
    /// What the node carries.
    pub data: (),
    /// The handle of the left child.
    pub left: Option<usize>,
    /// The handle of the right child.
    pub right: Option<usize>,
}

impl BinaryTreeNode {
    /// Creates a node without children.
    pub fn new(data: ()) -> (node: Self)
        ensures
            node.left is None,
            node.right is None,
    {
        Self { data, left: None, right: None }
    }
}

/// A tree under construction: the arena that holds its nodes.
pub struct BinaryTree {
    nodes: Arena<BinaryTreeNode>,
}

impl BinaryTree {
    /// The nodes of the tree, in the order in which they were inserted.
    pub closed spec fn nodes(&self) -> Seq<BinaryTreeNode> {
        self.nodes@
    }

    /// The arena of the nodes is in order.
    pub closed spec fn wf(&self) -> bool {
        self.nodes.wf()
    }

    /// Creates a tree without nodes.
    pub fn new() -> (tree: Self)
        ensures
            tree.wf(),
            tree.nodes().len() == 0,
    {
        Self { nodes: Arena::new() }
    }

    /// Makes `child` the right child of `node`.
    pub fn set_right(&mut self, node: usize, child: usize)
        requires
            old(self).wf(),
            node < old(self).nodes().len(),
        ensures
            final(self).wf(),
            final(self).nodes() == old(self).nodes().update(
                node as int,
                BinaryTreeNode { data: (), left: old(self).nodes()[node as int].left, right: Some(child) },
            ),
    {
        let slot = self.nodes.get_mut(node);
        slot.right = Some(child);
    }

    /// Inserts a node without children and returns its handle.
    pub fn insert_node(&mut self) -> (handle: usize)
        requires
            old(self).wf(),
            old(self).nodes().len() + 2 * BLOCK_SIZE <= usize::MAX,
        ensures
            final(self).wf(),
            handle == old(self).nodes().len(),
            final(self).nodes().len() == old(self).nodes().len() + 1,
            final(self).nodes().take(handle as int) == old(self).nodes(),
            final(self).nodes()[handle as int].left is None,
            final(self).nodes()[handle as int].right is None,
    {
        let handle = self.nodes.allocate(BinaryTreeNode::new(()));
        assert(self.nodes().take(handle as int) =~= old(self).nodes());
        handle
    }
}

} // verus!
