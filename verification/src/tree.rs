//! The tree: construction, the root's value, and insertion.

use vstd::prelude::*;
use crate::node::Node;
use crate::order::{le, le_is_computed, total_preorder, connex};
use crate::sorted::{fits_at, lemma_fit_is_lower_bound, lower_bound, sorted, stepwise_sorted};

verus! {

/// An unbalanced binary search tree.
///
/// Its view is the sequence of its values in order: for each node the
/// values of its left subtree, then its own, then those of its right
/// subtree. A value that is `<=` the value of a node is kept to the left of
/// it, so among equal values the one inserted last comes first.
#[derive(Debug)]
pub struct Bst<T>
where
    T: Copy + PartialEq + PartialOrd + Eq,
{
    pub(crate) root: Option<Box<Node<T>>>,
}

impl<T> View for Bst<T>
where
    T: Copy + PartialEq + PartialOrd + Eq,
{
    type V = Seq<T>;

    open spec fn view(&self) -> Seq<T> {
        self.traversal()
    }
}

impl<T> Bst<T>
where
    T: Copy + PartialEq + PartialOrd + Eq,
{
    /// The values of the tree in order.
    pub open(crate) spec fn traversal(&self) -> Seq<T> {
        Node::inorder_opt(self.root)
    }

    /// The search-tree order holds at every node: each value of its left
    /// subtree is `<=` the node's value, and no value of its right subtree
    /// is.
    pub open(crate) spec fn wf(&self) -> bool {
        Node::ordered_opt(self.root)
    }

    /// The value at the root, if the tree has one.
    pub open(crate) spec fn spec_head(&self) -> Option<T> {
        match self.root {
            None => None,
            Some(node) => Some(node.val),
        }
    }

    /// A tree without values.
    pub fn empty() -> (tree: Self)
        ensures
            tree@ == Seq::<T>::empty(),
            tree.head() is None,
            tree.wf(),
    {
        Self { root: None }
    }

    /// A tree whose root holds `val`.
    pub fn new(val: T) -> (tree: Self)
        ensures
            tree@ == seq![val],
            tree.head() == Some(val),
            tree.wf(),
    {
        let node = Node::new(val);
        proof {
            node.lemma_leaf();
        }
        Self { root: Some(Box::new(node)) }
    }

    /// The value at the root, or `None` for a tree without values.
    #[verifier::when_used_as_spec(spec_head)]
    pub fn head(&self) -> (head: Option<T>)
        ensures
            head == self.spec_head(),
    {
        match &self.root {
            None => None,
            Some(node) => Some(node.val),
        }
    }

    /// In a well-formed tree over a total preorder the values come in
    /// ascending order: none is followed, at any distance, by one that it is
    /// not `<=` to.
    pub proof fn lemma_traversal_sorted(self)
        requires
            self.wf(),
            total_preorder::<T>(),
        ensures
            sorted(self@),
    {
        Node::lemma_ordered_opt_sorted(self.root);
    }

    /// In a well-formed tree each value is `<=` the one that follows it in
    /// order, wherever any two values are comparable: for neighbours the
    /// order need not be transitive.
    pub proof fn lemma_traversal_stepwise(self)
        requires
            self.wf(),
            connex::<T>(),
        ensures
            stepwise_sorted(self@),
    {
        if let Some(node) = self.root {
            node.lemma_ordered_stepwise();
        }
    }

    /// The root's value is one of the tree's values, and a tree without a
    /// root has none.
    pub proof fn lemma_head_in_traversal(self)
        ensures
            self.head() is None <==> self@.len() == 0,
            self.head() is Some ==> self@.contains(self.head().unwrap()),
    {
        if let Some(node) = self.root {
            let l = Node::inorder_opt(node.left);
            assert(self@[l.len() as int] == node.val);
        }
    }

    /// Puts `val` into the tree, in a new leaf. The walk starts at the root
    /// and goes left at each node whose value `val` is `<=` to, right at the
    /// others, until it comes to an empty child slot.
    pub fn insert(&mut self, val: T)
        ensures
            exists|k: int|
                {
                    &&& 0 <= k <= old(self)@.len()
                    &&& final(self)@ == #[trigger] old(self)@.insert(k, val)
                    &&& le_is_computed::<T>() ==> fits_at(old(self)@, val, k)
                },
            final(self)@.to_multiset() == old(self)@.to_multiset().insert(val),
            le_is_computed::<T>() && old(self).wf() ==> final(self).wf(),
            le_is_computed::<T>() && total_preorder::<T>() && old(self).wf() ==> final(self)@
                == old(self)@.insert(lower_bound(old(self)@, val), val),
            final(self).head() == if old(self).head() is None {
                Some(val)
            } else {
                old(self).head()
            },
    {
        // The values that come before the slot in order, and those after it.
        let ghost mut before: Seq<T> = Seq::empty();
        let ghost mut after: Seq<T> = Seq::empty();
        // What the nodes passed on the way down ask of a value below them.
        let ghost mut admits: spec_fn(T) -> bool = |x: T| true;
        let ghost mut at_root: bool = true;
        let mut slot = &mut self.root;
        loop
            invariant
                Node::inorder_opt(old(self).root) == before + Node::inorder_opt(*slot) + after,
                Node::inorder_opt(after_borrow(self.root)) == before + Node::inorder_opt(
                    *final(slot),
                ) + after,
                at_root ==> old(self).root == *slot && after_borrow(self.root) == *final(slot),
                !at_root ==> old(self).root is Some && after_borrow(self.root) is Some
                    && after_borrow(self.root).unwrap().val == old(self).root.unwrap().val,
                le_is_computed::<T>() ==> {
                    &&& before.len() > 0 ==> !le(val, before.last())
                    &&& after.len() > 0 ==> le(val, after.first())
                },
                le_is_computed::<T>() && Node::ordered_opt(old(self).root) ==> {
                    &&& Node::ordered_opt(*slot)
                    &&& Node::inorder_opt(*slot).all(admits)
                    &&& admits(val)
                    &&& Node::ordered_opt(*final(slot)) && Node::inorder_opt(*final(slot)).all(
                        admits,
                    ) ==> Node::ordered_opt(after_borrow(self.root))
                },
            decreases *slot,
        {
            let ghost now = *slot;
            match slot {
                None => {
                    *slot = Some(Box::new(Node::new(val)));
                    proof {
                        let k = before.len() as int;
                        let s = old(self)@;
                        assert(Node::inorder_opt(*slot) =~= seq![val]);
                        assert(s =~= before + after);
                        assert(self@ =~= s.insert(k, val));
                        vstd::seq_lib::to_multiset_insert(s, k, val);
                        if le_is_computed::<T>() {
                            assert(fits_at(s, val, k));
                            if old(self).wf() {
                                slot.unwrap().lemma_leaf();
                                if total_preorder::<T>() {
                                    Node::lemma_ordered_opt_sorted(old(self).root);
                                    lemma_fit_is_lower_bound(s, val, k);
                                }
                            }
                        }
                    }
                    return ;
                },
                Some(node) => {
                    let ghost prev = admits;
                    let ghost above = *now.unwrap();
                    let ghost tracks = le_is_computed::<T>() && Node::ordered_opt(old(self).root);
                    if val <= node.val {
                        proof {
                            after = seq![above.val] + Node::inorder_opt(above.right) + after;
                            admits = |x: T| prev(x) && le(x, above.val);
                        }
                        slot = &mut node.left;
                        proof {
                            if tracks {
                                above.lemma_below_left(prev);
                            }
                        }
                        assert(tracks && Node::ordered_opt(*final(slot)) && Node::inorder_opt(
                            *final(slot),
                        ).all(admits) ==> Node::ordered_opt(after_borrow(self.root))) by {
                            if tracks && Node::ordered_opt(*final(slot)) && Node::inorder_opt(
                                *final(slot),
                            ).all(admits) {
                                above.lemma_regrown_left(*final(slot), prev);
                            }
                        }
                    } else {
                        proof {
                            before = before + Node::inorder_opt(above.left) + seq![above.val];
                            admits = |x: T| prev(x) && !le(x, above.val);
                        }
                        slot = &mut node.right;
                        proof {
                            if tracks {
                                above.lemma_below_right(prev);
                            }
                        }
                        assert(tracks && Node::ordered_opt(*final(slot)) && Node::inorder_opt(
                            *final(slot),
                        ).all(admits) ==> Node::ordered_opt(after_borrow(self.root))) by {
                            if tracks && Node::ordered_opt(*final(slot)) && Node::inorder_opt(
                                *final(slot),
                            ).all(admits) {
                                above.lemma_regrown_right(*final(slot), prev);
                            }
                        }
                    }
                    proof {
                        at_root = false;
                    }
                },
            }
        }
    }
}

} // verus!
