//! A binary tree whose nodes live in a bump arena and know their children by
//! handle, and the walk through it from left to right.
//!
//! The walk is for trees in which no node is its own descendant. A child whose
//! handle is that of no node counts as no child.

use crate::corrida::Corrida;
use vstd::prelude::*;

verus! {

/// A node of the tree. It does not know its parent.
pub struct BTree<T: Copy> {
    /// What the node carries.
    pub data: T,
    /// The handle of the left child.
    pub left: Option<usize>,
    /// The handle of the right child.
    pub right: Option<usize>,
}

/// The node that `child` stands for, if it stands for one.
pub open spec fn child_of<T: Copy>(nodes: Seq<BTree<T>>, child: Option<usize>) -> Option<int> {
    match child {
        Some(c) => if c < nodes.len() {
            Some(c as int)
        } else {
            None
        },
        None => None,
    }
}

/// `rank` gives every node a number that is above the numbers of its children.
pub open spec fn ranks<T: Copy>(nodes: Seq<BTree<T>>, rank: Seq<nat>) -> bool {
    &&& rank.len() == nodes.len()
    &&& forall|q: int|
        0 <= q < nodes.len() ==> {
            &&& child_of(nodes, (#[trigger] nodes[q]).left) is Some ==> rank[child_of(nodes, nodes[q].left)->Some_0] < rank[q]
            &&& child_of(nodes, nodes[q].right) is Some ==> rank[child_of(nodes, nodes[q].right)->Some_0] < rank[q]
        }
}

/// No node is its own descendant: the nodes can be ranked.
pub open spec fn acyclic<T: Copy>(nodes: Seq<BTree<T>>) -> bool {
    exists|rank: Seq<nat>| ranks(nodes, rank)
}

/// A tree whose nodes were put into the arena children first has no cycle: a
/// node's own handle ranks it.
pub proof fn lemma_children_first_is_acyclic<T: Copy>(nodes: Seq<BTree<T>>)
    requires
        forall|q: int|
            0 <= q < nodes.len() ==> {
                &&& (#[trigger] nodes[q]).left is Some ==> nodes[q].left->Some_0 < q
                &&& nodes[q].right is Some ==> nodes[q].right->Some_0 < q
            },
    ensures
        acyclic(nodes),
{
    let rank = Seq::new(nodes.len(), |q: int| q as nat);
    assert(ranks(nodes, rank));
}

/// A ranking of the nodes, where there is one.
pub open spec fn tree_rank<T: Copy>(nodes: Seq<BTree<T>>) -> Seq<nat> {
    choose|rank: Seq<nat>| ranks(nodes, rank)
}

/// What the tree under `child` carries, from left to right, where `child` is a
/// node that ranks below `bound`; nothing else.
pub open spec fn in_order_under<T: Copy>(nodes: Seq<BTree<T>>, rank: Seq<nat>, child: Option<usize>, bound: nat) -> Seq<T>
    decreases bound, 0int,
{
    match child {
        Some(c) => if c < nodes.len() && c < rank.len() && rank[c as int] < bound {
            in_order_by(nodes, rank, c as int)
        } else {
            Seq::empty()
        },
        None => Seq::empty(),
    }
}

/// What the tree under node `q` carries, from left to right, as far as `rank`
/// lets it be followed.
pub open spec fn in_order_by<T: Copy>(nodes: Seq<BTree<T>>, rank: Seq<nat>, q: int) -> Seq<T>
    decreases
            (if 0 <= q < rank.len() {
                rank[q]
            } else {
                0
            }),
            1int,
{
    if 0 <= q < nodes.len() && q < rank.len() {
        in_order_under(nodes, rank, nodes[q].left, rank[q]) + seq![nodes[q].data] + in_order_under(
            nodes,
            rank,
            nodes[q].right,
            rank[q],
        )
    } else {
        Seq::empty()
    }
}

/// What the tree under node `q` carries, from left to right. In a tree without
/// cycles this is the left subtree, the node itself, the right subtree, as
/// `lemma_in_order_unfolds` says.
pub open spec fn in_order<T: Copy>(nodes: Seq<BTree<T>>, q: int) -> Seq<T> {
    in_order_by(nodes, tree_rank(nodes), q)
}

/// What the tree under `child` carries, from left to right; nothing where
/// `child` stands for no node.
pub open spec fn in_order_of<T: Copy>(nodes: Seq<BTree<T>>, child: Option<usize>) -> Seq<T> {
    match child_of(nodes, child) {
        Some(c) => in_order(nodes, c),
        None => Seq::empty(),
    }
}

/// In a tree without cycles, what the tree under a node carries is what its left
/// subtree carries, then the node's own data, then what its right subtree
/// carries.
pub proof fn lemma_in_order_unfolds<T: Copy>(nodes: Seq<BTree<T>>, q: int)
    requires
        acyclic(nodes),
        0 <= q < nodes.len(),
    ensures
        in_order(nodes, q) == in_order_of(nodes, nodes[q].left) + seq![nodes[q].data] + in_order_of(nodes, nodes[q].right),
{
    let rank = tree_rank(nodes);
    assert(ranks(nodes, rank));
    assert(in_order_under(nodes, rank, nodes[q].left, rank[q]) == in_order_of(nodes, nodes[q].left));
    assert(in_order_under(nodes, rank, nodes[q].right, rank[q]) == in_order_of(nodes, nodes[q].right));
}

/// What a walk still has to hand out when `stack` holds the nodes it has come
/// down through, the innermost last: for a node whose left subtree is done,
/// the node and its right subtree; for any other, the whole tree under it.
pub open spec fn pending<T: Copy>(nodes: Seq<BTree<T>>, stack: Seq<(usize, bool)>) -> Seq<T>
    decreases stack.len(),
{
    if stack.len() == 0 {
        Seq::empty()
    } else {
        let (q, left_done) = stack.last();
        (if left_done {
            seq![nodes[q as int].data] + in_order_of(nodes, nodes[q as int].right)
        } else {
            in_order(nodes, q as int)
        }) + pending(nodes, stack.drop_last())
    }
}

impl<T: Copy> BTree<T> {
    /// Creates a node without children.
    pub fn new(data: T) -> (node: Self)
        ensures
            node.data == data,
            node.left is None,
            node.right is None,
    {
        Self { data, left: None, right: None }
    }

    /// Starts a walk, from left to right, through the tree under the node with
    /// handle `root`. The walk hands out what `in_order` says, and nothing where
    /// there is no such node.
    pub fn iter_in_order(arena: &Corrida<BTree<T>>, root: usize) -> (iter: IterInOrder<'_, T>)
        requires
            acyclic(arena@),
        ensures
            iter.wf(),
            iter.rest() == in_order(arena@, root as int),
    {
        let mut stack: Vec<(usize, bool)> = Vec::new();
        if root < arena.len() {
            stack.push((root, false));
            proof {
                assert(stack@.last() == (root, false));
                assert(stack@.drop_last() =~= Seq::<(usize, bool)>::empty());
                assert(pending(arena@, stack@.drop_last()) =~= Seq::<T>::empty());
                assert(pending(arena@, stack@) =~= in_order(arena@, root as int));
            }
        }
        IterInOrder { arena, stack }
    }
}

/// A walk through a tree from left to right.
pub struct IterInOrder<'a, T: Copy> {
    arena: &'a Corrida<BTree<T>>,
    stack: Vec<(usize, bool)>,
}

impl<'a, T: Copy> IterInOrder<'a, T> {
    /// What the walk still has to hand out, in order.
    pub closed spec fn rest(&self) -> Seq<T> {
        pending(self.arena@, self.stack@)
    }

    /// The walk is over a tree without cycles, and every node it has come down
    /// through exists.
    pub closed spec fn wf(&self) -> bool {
        &&& acyclic(self.arena@)
        &&& forall|i: int| 0 <= i < self.stack@.len() ==> (#[trigger] self.stack@[i]).0 < self.arena@.len()
    }

    /// Hands out the next value of the walk, or `None` when the walk is over.
    pub fn next(&mut self) -> (item: Option<T>)
        requires
            old(self).wf(),
        ensures
            final(self).wf(),
            match item {
                Some(value) => old(self).rest().len() > 0 && value == old(self).rest()[0] && final(self).rest() == old(
                    self,
                ).rest().drop_first(),
                None => old(self).rest().len() == 0 && final(self).rest().len() == 0,
            },
    {
        if self.stack.len() == 0 {
            return None;
        }
        let n = self.arena.len();
        let ghost nodes = self.arena@;
        let ghost rank = tree_rank(nodes);
        let ghost goal = pending(nodes, self.stack@);
        let mut top: (usize, bool) = self.stack[self.stack.len() - 1];
        while !top.1
            invariant
                nodes == self.arena@,
                n == nodes.len(),
                acyclic(nodes),
                rank == tree_rank(nodes),
                self.stack@.len() > 0,
                top == self.stack@.last(),
                forall|i: int| 0 <= i < self.stack@.len() ==> (#[trigger] self.stack@[i]).0 < nodes.len(),
                pending(nodes, self.stack@) == goal,
            decreases rank[top.0 as int], if top.1 { 0int } else { 1int },
        {
            let ghost before = self.stack@;
            let at = self.stack.len() - 1;
            let node = self.arena.get(top.0);
            self.stack.set(at, (top.0, true));
            let ghost marked = self.stack@;
            let ghost q = top.0 as int;
            let ghost rest = pending(nodes, before.drop_last());
            proof {
                assert(ranks(nodes, rank));
                assert(marked.drop_last() =~= before.drop_last());
                assert(marked.last() == (q as usize, true));
                lemma_in_order_unfolds(nodes, q);
                assert(goal =~= (in_order_of(nodes, nodes[q].left) + seq![nodes[q].data] + in_order_of(nodes, nodes[q].right))
                    + rest);
                assert(pending(nodes, marked) =~= (seq![nodes[q].data] + in_order_of(nodes, nodes[q].right)) + rest);
            }
            let left: Option<usize> = match node.left {
                Some(left) => if left < n {
                    Some(left)
                } else {
                    None
                },
                None => None,
            };
            match left {
                Some(left) => {
                    self.stack.push((left, false));
                    top = (left, false);
                    proof {
                        assert(self.stack@.drop_last() =~= marked);
                        assert(self.stack@.last() == (left, false));
                        assert(in_order_of(nodes, nodes[q].left) == in_order(nodes, left as int));
                        assert(pending(nodes, self.stack@) =~= in_order(nodes, left as int) + pending(nodes, marked));
                        assert(pending(nodes, self.stack@) =~= goal);
                    }
                },
                None => {
                    top = (top.0, true);
                    proof {
                        assert(in_order_of(nodes, nodes[q].left) =~= Seq::<T>::empty());
                        assert(pending(nodes, self.stack@) =~= goal);
                    }
                },
            }
        }
        let ghost full = self.stack@;
        let last = self.stack.pop().unwrap();
        let node = self.arena.get(last.0);
        let ghost below = self.stack@;
        let ghost q = last.0 as int;
        assert(below =~= full.drop_last());
        let right: Option<usize> = match node.right {
            Some(right) => if right < n {
                Some(right)
            } else {
                None
            },
            None => None,
        };
        match right {
            Some(right) => {
                self.stack.push((right, false));
                proof {
                    assert(self.stack@.drop_last() =~= below);
                    assert(self.stack@.last() == (right, false));
                    assert(in_order_of(nodes, nodes[q].right) == in_order(nodes, right as int));
                    assert(goal =~= seq![nodes[q].data] + (in_order(nodes, right as int) + pending(nodes, below)));
                    assert(goal.drop_first() =~= in_order(nodes, right as int) + pending(nodes, below));
                }
            },
            None => {
                proof {
                    assert(in_order_of(nodes, nodes[q].right) =~= Seq::<T>::empty());
                    assert(goal =~= seq![nodes[q].data] + pending(nodes, below));
                    assert(goal.drop_first() =~= pending(nodes, below));
                }
            },
        }
        Some(node.data)
    }

    /// Walks to the end and gives the value that was handed out last, or `None`
    /// where the walk was over already.
    pub fn last(self) -> (item: Option<T>)
        requires
            self.wf(),
        ensures
            match item {
                Some(value) => self.rest().len() > 0 && value == self.rest().last(),
                None => self.rest().len() == 0,
            },
    {
        let mut walk = self;
        let mut found: Option<T> = None;
        let ghost all = walk.rest();
        loop
            invariant
                walk.wf(),
                walk.rest().len() <= all.len(),
                walk.rest() == all.skip(all.len() - walk.rest().len()),
                match found {
                    Some(value) => walk.rest().len() < all.len() && value == all[all.len() - walk.rest().len() - 1],
                    None => walk.rest().len() == all.len(),
                },
            ensures
                walk.rest().len() == 0,
            decreases walk.rest().len(),
        {
            match walk.next() {
                Some(value) => {
                    found = Some(value);
                    proof {
                        assert(walk.rest() =~= all.skip(all.len() - walk.rest().len()));
                    }
                },
                None => {
                    break ;
                },
            }
        }
        found
    }
}

} // verus!
