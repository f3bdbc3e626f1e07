//! Insertion into a subtree.

use vstd::prelude::*;
use std::fmt::{Debug, Display};
use crate::node::{Node, Tree};
use crate::order::{le, le_laws, total_preorder};
use crate::sequence::{
    lemma_lower_bound, lemma_lower_bound_after, lemma_lower_bound_before, lemma_sorted_insert,
    lemma_sorted_parts, lower_bound, sorted,
};

verus! {

impl<T: Clone + Ord + Eq + Debug + Display> Node<T> {
    /// What [`Node::insert`] makes of this node.
    ///
    /// A value that is `<=` the payload of a node goes to its left, any other
    /// to its right, down to the first free slot; this puts an order-equivalent
    /// value to the left of those already there. On the way back up every node
    /// on the path is rebalanced.
    pub open spec fn inserted(self, v: T) -> Node<T>
        decreases self,
    {
        if le(v, self.value) {
            let grown = match self.left {
                Some(child) => child.inserted(v),
                None => Self::leaf(v),
            };
            Node { left: Some(Box::new(grown)), ..self }.rebalanced()
        } else {
            let grown = match self.right {
                Some(child) => child.inserted(v),
                None => Self::leaf(v),
            };
            Node { right: Some(Box::new(grown)), ..self }.rebalanced()
        }
    }

    /// One step of [`Node::lemma_inserted`]: the left child was replaced by
    /// `grown`, which holds one value more, and the node is rebalanced.
    proof fn lemma_grown_left(self, v: T, grown: Node<T>)
        requires
            sorted(Self::values(self.tree())),
            Self::avl(self.tree()),
            self.height < usize::MAX,
            le(v, self.value),
            Self::avl(grown.tree()),
            Self::values(grown.tree()) == Self::values(self.left).insert(
                lower_bound(Self::values(self.left), v),
                v,
            ),
            Self::count_of(grown.tree()) == Self::count_of(self.left) + 1,
            grown.height == Self::cached(self.left) || grown.height == Self::cached(self.left) + 1,
        ensures
            ({
                let after = Node { left: Some(Box::new(grown)), ..self }.rebalanced();
                &&& Self::avl(after.tree())
                &&& Self::values(after.tree()) == Self::values(self.tree()).insert(
                    lower_bound(Self::values(self.tree()), v),
                    v,
                )
                &&& Self::count_of(after.tree()) == Self::count_of(self.tree()) + 1
                &&& (after.height == self.height || after.height == self.height + 1)
            }),
    {
        let a = Self::values(self.left);
        let b = Self::values(self.right);
        let mid = Node { left: Some(Box::new(grown)), ..self };
        mid.lemma_rebalanced();
        lemma_lower_bound(a, v);
        lemma_lower_bound_before(a, self.value, b, v);
        assert(Self::values(mid.tree()) =~= Self::values(self.tree()).insert(
            lower_bound(a, v),
            v,
        ));
    }

    /// One step of [`Node::lemma_inserted`]: the right child was replaced by
    /// `grown`, which holds one value more, and the node is rebalanced.
    proof fn lemma_grown_right(self, v: T, grown: Node<T>)
        requires
            le_laws::<T>(),
            sorted(Self::values(self.tree())),
            Self::avl(self.tree()),
            self.height < usize::MAX,
            !le(v, self.value),
            Self::avl(grown.tree()),
            Self::values(grown.tree()) == Self::values(self.right).insert(
                lower_bound(Self::values(self.right), v),
                v,
            ),
            Self::count_of(grown.tree()) == Self::count_of(self.right) + 1,
            grown.height == Self::cached(self.right) || grown.height == Self::cached(self.right)
                + 1,
        ensures
            ({
                let after = Node { right: Some(Box::new(grown)), ..self }.rebalanced();
                &&& Self::avl(after.tree())
                &&& Self::values(after.tree()) == Self::values(self.tree()).insert(
                    lower_bound(Self::values(self.tree()), v),
                    v,
                )
                &&& Self::count_of(after.tree()) == Self::count_of(self.tree()) + 1
                &&& (after.height == self.height || after.height == self.height + 1)
            }),
    {
        let a = Self::values(self.left);
        let b = Self::values(self.right);
        let mid = Node { right: Some(Box::new(grown)), ..self };
        mid.lemma_rebalanced();
        lemma_lower_bound(b, v);
        lemma_lower_bound_after(a, self.value, b, v);
        assert(Self::values(mid.tree()) =~= Self::values(self.tree()).insert(
            a.len() + 1 + lower_bound(b, v),
            v,
        ));
    }

    /// A leaf holds its value alone.
    proof fn lemma_leaf(v: T)
        ensures
            Self::avl(Self::leaf(v).tree()),
            Self::values(Self::leaf(v).tree()) == Seq::<T>::empty().insert(
                lower_bound(Seq::<T>::empty(), v),
                v,
            ),
            Self::count_of(Self::leaf(v).tree()) == 1,
    {
        reveal_with_fuel(Node::avl, 2);
        reveal_with_fuel(Node::values, 2);
        reveal_with_fuel(Node::count_of, 2);
        assert(Self::values(Self::leaf(v).tree()) =~= Seq::<T>::empty().insert(0, v));
    }

    /// Insertion keeps a tree balanced and sorted. The new in-order sequence is
    /// the old one with the value at its lower bound, and the tree grows by at
    /// most one level.
    pub proof fn lemma_inserted(self, v: T)
        requires
            le_laws::<T>(),
            sorted(Self::values(self.tree())),
            Self::avl(self.tree()),
            self.height < usize::MAX,
        ensures
            Self::avl(self.inserted(v).tree()),
            Self::values(self.inserted(v).tree()) == Self::values(self.tree()).insert(
                lower_bound(Self::values(self.tree()), v),
                v,
            ),
            sorted(Self::values(self.inserted(v).tree())),
            Self::count_of(self.inserted(v).tree()) == Self::count_of(self.tree()) + 1,
            self.inserted(v).height == self.height || self.inserted(v).height == self.height + 1,
        decreases self,
    {
        lemma_sorted_parts(Self::values(self.left), self.value, Self::values(self.right));
        Self::lemma_leaf(v);
        if le(v, self.value) {
            match self.left {
                Some(child) => {
                    child.lemma_inserted(v);
                    self.lemma_grown_left(v, child.inserted(v));
                },
                None => {
                    self.lemma_grown_left(v, Self::leaf(v));
                },
            }
        } else {
            match self.right {
                Some(child) => {
                    child.lemma_inserted(v);
                    self.lemma_grown_right(v, child.inserted(v));
                },
                None => {
                    self.lemma_grown_right(v, Self::leaf(v));
                },
            }
        }
        lemma_sorted_insert(Self::values(self.tree()), v);
    }

    /// Puts `new_payload` into the subtree below this node and restores the
    /// balance on the way back. It always succeeds: a value that is
    /// order-equivalent to one in the tree is stored as well, to the left of
    /// the ones already there.
    pub fn insert(&mut self, new_payload: T) -> (done: bool)
        requires
            total_preorder::<T>(),
            Self::wf(old(self).tree()),
            old(self).height < usize::MAX,
        ensures
            done,
            *final(self) == old(self).inserted(new_payload),
            Self::wf(final(self).tree()),
            Self::values(final(self).tree()) == Self::values(old(self).tree()).insert(
                lower_bound(Self::values(old(self).tree()), new_payload),
                new_payload,
            ),
            Self::count_of(final(self).tree()) == Self::count_of(old(self).tree()) + 1,
            final(self).height == old(self).height || final(self).height == old(self).height + 1,
        decreases *old(self),
    {
        proof {
            Self::lemma_avl_iff(self.tree());
            Self::lemma_avl_iff(self.left);
            Self::lemma_avl_iff(self.right);
            lemma_sorted_parts(Self::values(self.left), self.value, Self::values(self.right));
            self.lemma_inserted(new_payload);
            Self::lemma_avl_iff(self.inserted(new_payload).tree());
            if self.left is Some {
                self.left.unwrap().lemma_inserted(new_payload);
                Self::lemma_avl_iff(self.left.unwrap().inserted(new_payload).tree());
            }
            if self.right is Some {
                self.right.unwrap().lemma_inserted(new_payload);
                Self::lemma_avl_iff(self.right.unwrap().inserted(new_payload).tree());
            }
        }
        let ghost before = *self;
        let target: &mut Tree<T> = if new_payload <= self.value {
            &mut self.left
        } else {
            &mut self.right
        };
        match target {
            Some(child) => {
                child.insert(new_payload);
            },
            None => {
                *target = Some(Box::new(Node { left: None, right: None, value: new_payload, height: 1 }));
            },
        }
        proof {
            let mid = *self;
            mid.lemma_rebalanced_of_refreshed();
            mid.lemma_rebalanced();
        }
        self.update_height();
        self.rebalance();
        true
    }

    /// A possibly empty subtree after `v` went in: a single leaf where there
    /// was nothing, and [`Node::inserted`] otherwise.
    pub open spec fn grown(t: Tree<T>, v: T) -> Tree<T> {
        match t {
            Some(n) => Some(Box::new(n.inserted(v))),
            None => Some(Box::new(Self::leaf(v))),
        }
    }

    /// [`Node::lemma_inserted`] for a subtree that may be empty, in terms of
    /// the invariants of the tree.
    pub proof fn lemma_grown(t: Tree<T>, v: T)
        requires
            le_laws::<T>(),
            Self::wf(t),
            Self::cached(t) < usize::MAX,
        ensures
            Self::wf(Self::grown(t, v)),
            Self::values(Self::grown(t, v)) == Self::values(t).insert(
                lower_bound(Self::values(t), v),
                v,
            ),
            Self::count_of(Self::grown(t, v)) == Self::count_of(t) + 1,
            Self::cached(Self::grown(t, v)) == Self::cached(t) || Self::cached(Self::grown(t, v))
                == Self::cached(t) + 1,
    {
        Self::lemma_avl_iff(t);
        Self::lemma_avl_iff(Self::grown(t, v));
        match t {
            Some(n) => {
                n.lemma_inserted(v);
            },
            None => {
                Self::lemma_leaf(v);
                lemma_sorted_insert(Self::values(t), v);
            },
        }
    }
}

} // verus!
