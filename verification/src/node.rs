//! Tree nodes, and what a subtree holds.

use vstd::prelude::*;
use crate::order::{connex, le, total_preorder};
use crate::sorted::{sorted, stepwise_sorted};

verus! {

/// One value of the tree, with the subtrees below it.
///
/// A node owns its children. A child slot is filled once, when a value is
/// inserted there, and is never emptied or filled again.
#[derive(Debug)]
pub struct Node<T>
where
    T: Copy + PartialEq + PartialOrd + Eq,
{
    pub val: T,
    pub(crate) left: Option<Box<Node<T>>>,
    pub(crate) right: Option<Box<Node<T>>>,
}

/// Every element of `s` is `<=` `bound`.
pub open spec fn all_le<T: PartialOrd>(s: Seq<T>, bound: T) -> bool {
    forall|i: int| 0 <= i < s.len() ==> le(#[trigger] s[i], bound)
}

/// No element of `s` is `<=` `bound`.
pub open spec fn none_le<T: PartialOrd>(s: Seq<T>, bound: T) -> bool {
    forall|i: int| 0 <= i < s.len() ==> !le(#[trigger] s[i], bound)
}

impl<T> Node<T>
where
    T: Copy + PartialEq + PartialOrd + Eq,
{
    /// The value that this node holds.
    pub open(crate) spec fn value(self) -> T {
        self.val
    }

    /// This node has no children.
    pub open(crate) spec fn is_leaf(self) -> bool {
        self.left is None && self.right is None
    }

    /// The values of the subtree rooted here: those of the left subtree,
    /// then this node's value, then those of the right subtree.
    pub open(crate) spec fn inorder(self) -> Seq<T>
        decreases self,
    {
        Self::inorder_opt(self.left) + seq![self.val] + Self::inorder_opt(self.right)
    }

    /// The values below a child slot, in order: none where the slot is empty.
    pub open(crate) spec fn inorder_opt(slot: Option<Box<Node<T>>>) -> Seq<T>
        decreases slot,
    {
        match slot {
            None => Seq::empty(),
            Some(node) => node.inorder(),
        }
    }

    /// The search-tree order holds at this node and at every node below it:
    /// each value of a left subtree is `<=` the value of the node above it,
    /// and no value of a right subtree is.
    pub open(crate) spec fn ordered(self) -> bool
        decreases self,
    {
        &&& all_le(Self::inorder_opt(self.left), self.val)
        &&& none_le(Self::inorder_opt(self.right), self.val)
        &&& Self::ordered_opt(self.left)
        &&& Self::ordered_opt(self.right)
    }

    /// The search-tree order holds below a child slot.
    pub open(crate) spec fn ordered_opt(slot: Option<Box<Node<T>>>) -> bool
        decreases slot,
    {
        match slot {
            None => true,
            Some(node) => node.ordered(),
        }
    }

    /// A node that holds `val` and has no children.
    pub fn new(val: T) -> (node: Self)
        ensures
            node.value() == val,
            node.is_leaf(),
    {
        Self { val, left: None, right: None }
    }

    /// A node without children holds its own value and nothing else.
    pub(crate) proof fn lemma_leaf(self)
        requires
            self.is_leaf(),
        ensures
            self.inorder() == seq![self.val],
            self.ordered(),
    {
        assert(Self::inorder_opt(self.left) =~= Seq::empty());
        assert(Self::inorder_opt(self.right) =~= Seq::empty());
        assert(self.inorder() =~= seq![self.val]);
    }

    /// What holds of an ordered subtree holds of the part below its left
    /// slot, whose values are also `<=` the value above them.
    pub(crate) proof fn lemma_below_left(self, admits: spec_fn(T) -> bool)
        requires
            self.ordered(),
            self.inorder().all(admits),
        ensures
            Self::ordered_opt(self.left),
            Self::inorder_opt(self.left).all(|x: T| admits(x) && le(x, self.val)),
    {
        let l = Self::inorder_opt(self.left);
        assert forall|i: int| 0 <= i < l.len() implies admits(#[trigger] l[i]) && le(
            l[i],
            self.val,
        ) by {
            assert(self.inorder()[i] == l[i]);
        }
    }

    /// What holds of an ordered subtree holds of the part below its right
    /// slot, none of whose values is `<=` the value above them.
    pub(crate) proof fn lemma_below_right(self, admits: spec_fn(T) -> bool)
        requires
            self.ordered(),
            self.inorder().all(admits),
        ensures
            Self::ordered_opt(self.right),
            Self::inorder_opt(self.right).all(|x: T| admits(x) && !le(x, self.val)),
    {
        let l = Self::inorder_opt(self.left);
        let r = Self::inorder_opt(self.right);
        assert forall|i: int| 0 <= i < r.len() implies admits(#[trigger] r[i]) && !le(
            r[i],
            self.val,
        ) by {
            assert(self.inorder()[l.len() + 1 + i] == r[i]);
        }
    }

    /// An ordered subtree stays ordered, and keeps what held of its values,
    /// when the part below its left slot is replaced by an ordered one with
    /// values that are `<=` the value above them.
    pub(crate) proof fn lemma_regrown_left(
        self,
        sub: Option<Box<Node<T>>>,
        admits: spec_fn(T) -> bool,
    )
        requires
            self.ordered(),
            self.inorder().all(admits),
            Self::ordered_opt(sub),
            Self::inorder_opt(sub).all(|x: T| admits(x) && le(x, self.val)),
        ensures
            (Node { val: self.val, left: sub, right: self.right }).ordered(),
            (Node { val: self.val, left: sub, right: self.right }).inorder().all(admits),
    {
        let grown = Node { val: self.val, left: sub, right: self.right };
        let l = Self::inorder_opt(self.left);
        let m = Self::inorder_opt(sub);
        let r = Self::inorder_opt(self.right);
        assert forall|i: int| 0 <= i < m.len() implies le(#[trigger] m[i], self.val) by {
            assert((|x: T| admits(x) && le(x, self.val))(m[i]));
        }
        assert forall|i: int| 0 <= i < grown.inorder().len() implies admits(
            #[trigger] grown.inorder()[i],
        ) by {
            if i < m.len() {
                assert((|x: T| admits(x) && le(x, self.val))(m[i]));
            } else {
                assert(grown.inorder()[i] == self.inorder()[i - m.len() + l.len()]);
            }
        }
    }

    /// An ordered subtree stays ordered, and keeps what held of its values,
    /// when the part below its right slot is replaced by an ordered one with
    /// no value that is `<=` the value above them.
    pub(crate) proof fn lemma_regrown_right(
        self,
        sub: Option<Box<Node<T>>>,
        admits: spec_fn(T) -> bool,
    )
        requires
            self.ordered(),
            self.inorder().all(admits),
            Self::ordered_opt(sub),
            Self::inorder_opt(sub).all(|x: T| admits(x) && !le(x, self.val)),
        ensures
            (Node { val: self.val, left: self.left, right: sub }).ordered(),
            (Node { val: self.val, left: self.left, right: sub }).inorder().all(admits),
    {
        let grown = Node { val: self.val, left: self.left, right: sub };
        let l = Self::inorder_opt(self.left);
        let m = Self::inorder_opt(sub);
        assert forall|i: int| 0 <= i < m.len() implies !le(#[trigger] m[i], self.val) by {
            assert((|x: T| admits(x) && !le(x, self.val))(m[i]));
        }
        assert forall|i: int| 0 <= i < grown.inorder().len() implies admits(
            #[trigger] grown.inorder()[i],
        ) by {
            if i <= l.len() {
                assert(grown.inorder()[i] == self.inorder()[i]);
            } else {
                assert((|x: T| admits(x) && !le(x, self.val))(m[i - l.len() - 1]));
            }
        }
    }

    /// Where any two values are comparable, each value of an ordered subtree
    /// is `<=` the one that follows it in order.
    pub(crate) proof fn lemma_ordered_stepwise(self)
        requires
            self.ordered(),
            connex::<T>(),
        ensures
            stepwise_sorted(self.inorder()),
        decreases self,
    {
        let l = Self::inorder_opt(self.left);
        let r = Self::inorder_opt(self.right);
        let s = self.inorder();
        if let Some(node) = self.left {
            node.lemma_ordered_stepwise();
        }
        if let Some(node) = self.right {
            node.lemma_ordered_stepwise();
        }
        assert forall|i: int| 0 <= i && i + 1 < s.len() implies le(#[trigger] s[i], s[i + 1]) by {
            if i + 1 < l.len() {
                assert(s[i] == l[i] && s[i + 1] == l[i + 1]);
            } else if i + 1 == l.len() {
                assert(s[i] == l[i] && s[i + 1] == self.val);
            } else if i == l.len() {
                assert(s[i] == self.val && s[i + 1] == r[0]);
                assert(!le(r[0], self.val));
            } else {
                assert(s[i] == r[i - l.len() - 1] && s[i + 1] == r[i - l.len()]);
            }
        }
    }

    /// Under a total preorder the values below an ordered slot are sorted.
    pub(crate) proof fn lemma_ordered_opt_sorted(slot: Option<Box<Node<T>>>)
        requires
            Self::ordered_opt(slot),
            total_preorder::<T>(),
        ensures
            sorted(Self::inorder_opt(slot)),
    {
        if let Some(node) = slot {
            node.lemma_ordered_sorted();
        }
    }

    /// Under a total preorder the values of an ordered subtree are sorted.
    pub(crate) proof fn lemma_ordered_sorted(self)
        requires
            self.ordered(),
            total_preorder::<T>(),
        ensures
            sorted(self.inorder()),
        decreases self,
    {
        let l = Self::inorder_opt(self.left);
        let r = Self::inorder_opt(self.right);
        let s = self.inorder();
        if let Some(node) = self.left {
            node.lemma_ordered_sorted();
        }
        if let Some(node) = self.right {
            node.lemma_ordered_sorted();
        }
        assert forall|i: int, j: int| 0 <= i < j < s.len() implies le(#[trigger] s[i], #[trigger] s[j]) by {
            let a = l.len();
            if i < a {
                assert(s[i] == l[i] && le(l[i], self.val));
            } else if i > a {
                assert(s[i] == r[i - a - 1]);
            }
            if j < a {
                assert(s[j] == l[j]);
            } else if j > a {
                assert(s[j] == r[j - a - 1]);
                assert(!le(r[j - a - 1], self.val));
                assert(le(self.val, s[j]));
            }
            if i < a && j > a {
                assert(le(s[i], self.val) && le(self.val, s[j]));
            }
        }
    }
}

} // verus!
