//! The lazy in-order traversal.

use vstd::prelude::*;
use crate::node::Node;
use crate::tree::Bst;

verus! {

/// A traversal of a tree in order, one value for each call of
/// [`BstIterator::next`].
///
/// It borrows the tree, so the tree cannot change while the traversal
/// lasts. Its view is the sequence of values that it has yet to give.
pub struct BstIterator<'a, T>
where
    T: Copy + PartialEq + PartialOrd + Eq,
{
    /// The subtree to go down into next, if there is one.
    pub(crate) node: Option<&'a Node<T>>,
    /// The nodes passed on the way down to the left: the value of each, and
    /// its right subtree, are still to come. The last one comes first.
    pub(crate) stack: Vec<&'a Node<T>>,
}

/// The values that a subtree still to be entered will give.
pub open(crate) spec fn ahead<T>(node: Option<&Node<T>>) -> Seq<T>
where
    T: Copy + PartialEq + PartialOrd + Eq,
{
    match node {
        None => Seq::empty(),
        Some(node) => node.inorder(),
    }
}

/// The values that the nodes on the stack will give: for each, from the last
/// one pushed to the first, its own value and then those of its right
/// subtree.
pub open(crate) spec fn pending<T>(stack: Seq<&Node<T>>) -> Seq<T>
where
    T: Copy + PartialEq + PartialOrd + Eq,
    decreases stack.len(),
{
    if stack.len() == 0 {
        Seq::empty()
    } else {
        seq![stack.last().val] + Node::inorder_opt(stack.last().right) + pending(
            stack.drop_last(),
        )
    }
}

impl<'a, T> View for BstIterator<'a, T>
where
    T: Copy + PartialEq + PartialOrd + Eq,
{
    type V = Seq<T>;

    open spec fn view(&self) -> Seq<T> {
        self.remaining()
    }
}

impl<'a, T> BstIterator<'a, T>
where
    T: Copy + PartialEq + PartialOrd + Eq,
{
    /// The values still to come, in the order in which they will come.
    pub open(crate) spec fn remaining(&self) -> Seq<T> {
        ahead(self.node) + pending(self.stack@)
    }

    /// The next value in order, or `None` when all have been given. After a
    /// `None` every further call gives `None` too.
    pub fn next(&mut self) -> (item: Option<T>)
        ensures
            old(self)@.len() == 0 ==> item is None && final(self)@.len() == 0,
            old(self)@.len() > 0 ==> item == Some(old(self)@.first()) && final(self)@ == old(
                self,
            )@.drop_first(),
    {
        match self.node {
            Some(start) => {
                let mut curr: &'a Node<T> = start;
                loop
                    invariant
                        old(self)@ == curr.inorder() + pending(self.stack@),
                    decreases curr,
                {
                    match &curr.left {
                        None => {
                            self.node = match &curr.right {
                                None => None,
                                Some(right) => Some(&**right),
                            };
                            proof {
                                assert(Node::inorder_opt(curr.left) =~= Seq::empty());
                                assert(ahead(self.node) == Node::inorder_opt(curr.right));
                                assert(self@ =~= old(self)@.drop_first());
                            }
                            return Some(curr.val);
                        },
                        Some(left) => {
                            let ghost below = self.stack@;
                            self.stack.push(curr);
                            proof {
                                assert(self.stack@.drop_last() =~= below);
                                assert(self.stack@.last() == curr);
                            }
                            curr = &**left;
                        },
                    }
                }
            },
            None => {
                match self.stack.pop() {
                    None => None,
                    Some(curr) => {
                        self.node = match &curr.right {
                            None => None,
                            Some(right) => Some(&**right),
                        };
                        proof {
                            assert(old(self).stack@.drop_last() =~= self.stack@);
                            assert(ahead(self.node) == Node::inorder_opt(curr.right));
                            assert(self@ =~= old(self)@.drop_first());
                        }
                        Some(curr.val)
                    },
                }
            },
        }
    }
}

impl<T> Bst<T>
where
    T: Copy + PartialEq + PartialOrd + Eq,
{
    /// A traversal of the tree from its first value in order.
    pub fn iter(&self) -> (traversal: BstIterator<'_, T>)
        ensures
            traversal@ == self@,
    {
        let node = match &self.root {
            None => None,
            Some(root) => Some(&**root),
        };
        BstIterator { stack: Vec::new(), node }
    }
}

} // verus!
