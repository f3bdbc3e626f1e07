//! Removal from a subtree.

use vstd::prelude::*;
use std::fmt::{Debug, Display};
use crate::node::{Node, Tree};
use crate::order::{equiv, le, order_equivalent, total_preorder};
use crate::sequence::{lemma_sorted_parts, lemma_sorted_remove, sorted};

verus! {

impl<T: Clone + Ord + Eq + Debug + Display> Node<T> {
    /// What [`Node::remove_min`] leaves of a subtree, and the payload that it
    /// takes out: that of the leftmost node. The right subtree of that node
    /// takes its place, and every node above it is rebalanced.
    pub open spec fn removed_min(t: Tree<T>) -> (Tree<T>, T)
        recommends
            t is Some,
        decreases t,
    {
        match t {
            Some(n) => match n.left {
                Some(_) => {
                    let (rest, least) = Self::removed_min(n.left);
                    (Some(Box::new(Node { left: rest, ..*n }.rebalanced())), least)
                },
                None => (n.right, n.value),
            },
            None => (None, arbitrary()),
        }
    }

    /// What [`Node::remove`] leaves of a subtree, and the payload that it
    /// takes out, if any.
    ///
    /// The entry that goes is the one at [`Node::position`]. If it has a right
    /// subtree, the least payload of that subtree moves into its node;
    /// otherwise its left subtree takes its place. Every node on the way back
    /// up is rebalanced.
    pub open spec fn removed(t: Tree<T>, v: T) -> (Tree<T>, Option<T>)
        decreases t,
    {
        match t {
            Some(n) => if equiv(n.value, v) {
                match n.right {
                    Some(_) => {
                        let (rest, least) = Self::removed_min(n.right);
                        (
                            Some(Box::new(Node { right: rest, value: least, ..*n }.rebalanced())),
                            Some(n.value),
                        )
                    },
                    None => (
                        match n.left {
                            Some(child) => Some(Box::new(child.rebalanced())),
                            None => None,
                        },
                        Some(n.value),
                    ),
                }
            } else if le(v, n.value) {
                let (rest, out) = Self::removed(n.left, v);
                (Some(Box::new(Node { left: rest, ..*n }.rebalanced())), out)
            } else {
                let (rest, out) = Self::removed(n.right, v);
                (Some(Box::new(Node { right: rest, ..*n }.rebalanced())), out)
            },
            None => (None, None),
        }
    }

    /// Where `mid` is this node after one of its children lost at most one
    /// level, `mid` is balanced again once it is rebalanced, and is then as
    /// high as this node or one lower.
    proof fn lemma_shrunk(self, mid: Node<T>)
        requires
            Self::avl(self.tree()),
            Self::avl(mid.left),
            Self::avl(mid.right),
            Self::cached(mid.left) == Self::cached(self.left) || Self::cached(mid.left) + 1
                == Self::cached(self.left),
            Self::cached(mid.right) == Self::cached(self.right) || Self::cached(mid.right) + 1
                == Self::cached(self.right),
            Self::cached(mid.left) == Self::cached(self.left) || Self::cached(mid.right)
                == Self::cached(self.right),
        ensures
            mid.rebalance_fits(),
            Self::avl(mid.rebalanced().tree()),
            Self::values(mid.rebalanced().tree()) == Self::values(mid.tree()),
            Self::count_of(mid.rebalanced().tree()) == Self::count_of(mid.tree()),
            mid.rebalanced().height == self.height || mid.rebalanced().height + 1 == self.height,
    {
        mid.lemma_rebalanced();
    }

    /// Taking out the leftmost payload keeps a subtree balanced; what is left
    /// is the in-order sequence without its first element, and at most one
    /// level is lost.
    pub proof fn lemma_removed_min(t: Tree<T>)
        requires
            t is Some,
            Self::avl(t),
        ensures
            Self::avl(Self::removed_min(t).0),
            Self::values(t).len() > 0,
            Self::removed_min(t).1 == Self::values(t)[0],
            Self::values(Self::removed_min(t).0) == Self::values(t).remove(0),
            Self::count_of(Self::removed_min(t).0) + 1 == Self::count_of(t),
            Self::cached(Self::removed_min(t).0) == Self::cached(t) || Self::cached(
                Self::removed_min(t).0,
            ) + 1 == Self::cached(t),
        decreases t,
    {
        let n = *t.unwrap();
        let a = Self::values(n.left);
        let b = Self::values(n.right);
        assert(Self::values(t) == a + seq![n.value] + b);
        assert(Self::count_of(t) == 1 + Self::count_of(n.left) + Self::count_of(n.right));
        match n.left {
            Some(_) => {
                Self::lemma_removed_min(n.left);
                let (rest, least) = Self::removed_min(n.left);
                let mid = Node { left: rest, ..n };
                n.lemma_shrunk(mid);
                assert(Self::values(mid.tree()) == Self::values(rest) + seq![n.value] + b);
                assert(Self::values(mid.tree()) =~= Self::values(t).remove(0));
                assert(Self::count_of(mid.tree()) == 1 + Self::count_of(rest) + Self::count_of(
                    n.right,
                ));
            },
            None => {
                assert(a =~= Seq::empty());
                assert(b =~= Self::values(t).remove(0));
            },
        }
    }

    /// What [`Node::lemma_removed`] states of one subtree and one value.
    pub open spec fn removal_facts(t: Tree<T>, v: T) -> bool {
        let (rest, out) = Self::removed(t, v);
        &&& Self::avl(rest)
        &&& sorted(Self::values(rest))
        &&& (Self::cached(rest) == Self::cached(t) || Self::cached(rest) + 1 == Self::cached(t))
        &&& match Self::position(t, v) {
            Some(i) => {
                &&& 0 <= i < Self::values(t).len()
                &&& out == Some(Self::values(t)[i])
                &&& Self::values(rest) == Self::values(t).remove(i)
                &&& Self::count_of(rest) + 1 == Self::count_of(t)
            },
            None => {
                &&& out is None
                &&& rest == t
            },
        }
    }

    /// [`Node::lemma_removed`] where the root is the entry that goes.
    proof fn lemma_removed_root(self, v: T)
        requires
            sorted(Self::values(self.tree())),
            Self::avl(self.tree()),
            equiv(self.value, v),
        ensures
            Self::removal_facts(self.tree(), v),
    {
        let a = Self::values(self.left);
        let b = Self::values(self.right);
        let s = Self::values(self.tree());
        assert(s == a + seq![self.value] + b);
        assert(Self::count_of(self.tree()) == 1 + Self::count_of(self.left) + Self::count_of(
            self.right,
        ));
        assert(s[a.len() as int] == self.value);
        match self.right {
            Some(_) => {
                Self::lemma_removed_min(self.right);
                let (rest, least) = Self::removed_min(self.right);
                let mid = Node { right: rest, value: least, ..self };
                self.lemma_shrunk(mid);
                assert(Self::values(mid.tree()) == a + seq![least] + Self::values(rest));
                assert(Self::values(mid.tree()) =~= s.remove(a.len() as int));
                assert(Self::count_of(mid.tree()) == 1 + Self::count_of(self.left)
                    + Self::count_of(rest));
            },
            None => {
                assert(b =~= Seq::empty());
                assert(a =~= s.remove(a.len() as int));
                if let Some(child) = self.left {
                    child.lemma_rebalanced_fixpoint();
                }
            },
        }
        lemma_sorted_remove(s, a.len() as int);
    }

    /// [`Node::lemma_removed`] where the search goes on in the left subtree.
    proof fn lemma_removed_left(self, v: T)
        requires
            sorted(Self::values(self.tree())),
            Self::avl(self.tree()),
            !equiv(self.value, v),
            le(v, self.value),
            Self::removal_facts(self.left, v),
        ensures
            Self::removal_facts(self.tree(), v),
    {
        let a = Self::values(self.left);
        let b = Self::values(self.right);
        let s = Self::values(self.tree());
        assert(s == a + seq![self.value] + b);
        assert(Self::count_of(self.tree()) == 1 + Self::count_of(self.left) + Self::count_of(
            self.right,
        ));
        let (rest, out) = Self::removed(self.left, v);
        let mid = Node { left: rest, ..self };
        self.lemma_shrunk(mid);
        match Self::position(self.left, v) {
            Some(i) => {
                assert(s[i] == a[i]);
                assert(Self::values(mid.tree()) == a.remove(i) + seq![self.value] + b);
                assert(Self::values(mid.tree()) =~= s.remove(i));
                assert(Self::count_of(mid.tree()) == 1 + Self::count_of(rest) + Self::count_of(
                    self.right,
                ));
                lemma_sorted_remove(s, i);
            },
            None => {
                assert(mid == self);
                self.lemma_rebalanced_fixpoint();
            },
        }
    }

    /// [`Node::lemma_removed`] where the search goes on in the right subtree.
    proof fn lemma_removed_right(self, v: T)
        requires
            sorted(Self::values(self.tree())),
            Self::avl(self.tree()),
            !equiv(self.value, v),
            !le(v, self.value),
            Self::removal_facts(self.right, v),
        ensures
            Self::removal_facts(self.tree(), v),
    {
        let a = Self::values(self.left);
        let b = Self::values(self.right);
        let s = Self::values(self.tree());
        assert(s == a + seq![self.value] + b);
        assert(Self::count_of(self.tree()) == 1 + Self::count_of(self.left) + Self::count_of(
            self.right,
        ));
        let (rest, out) = Self::removed(self.right, v);
        let mid = Node { right: rest, ..self };
        self.lemma_shrunk(mid);
        match Self::position(self.right, v) {
            Some(i) => {
                assert(s[a.len() + 1 + i] == b[i]);
                assert(Self::values(mid.tree()) == a + seq![self.value] + b.remove(i));
                assert(Self::values(mid.tree()) =~= s.remove(a.len() + 1 + i));
                assert(Self::count_of(mid.tree()) == 1 + Self::count_of(self.left)
                    + Self::count_of(rest));
                lemma_sorted_remove(s, a.len() + 1 + i);
            },
            None => {
                assert(mid == self);
                self.lemma_rebalanced_fixpoint();
            },
        }
    }

    /// Removal keeps a tree balanced and sorted. If it finds an entry, the new
    /// in-order sequence is the old one without the element at
    /// [`Node::position`], and at most one level is lost; if it finds none,
    /// the tree is as it was.
    pub proof fn lemma_removed(t: Tree<T>, v: T)
        requires
            sorted(Self::values(t)),
            Self::avl(t),
        ensures
            Self::removal_facts(t, v),
        decreases t,
    {
        if let Some(boxed) = t {
            let n = *boxed;
            lemma_sorted_parts(Self::values(n.left), n.value, Self::values(n.right));
            if equiv(n.value, v) {
                n.lemma_removed_root(v);
            } else if le(v, n.value) {
                Self::lemma_removed(n.left, v);
                n.lemma_removed_left(v);
            } else {
                Self::lemma_removed(n.right, v);
                n.lemma_removed_right(v);
            }
        }
    }

    /// Takes the leftmost payload out of a subtree that is not empty, and
    /// returns it. The right subtree of its node takes the place of the node,
    /// and every node above is rebalanced.
    pub fn remove_min(node: &mut Tree<T>) -> (least: T)
        requires
            *old(node) is Some,
            Self::wf(*old(node)),
        ensures
            (*final(node), least) == Self::removed_min(*old(node)),
            Self::wf(*final(node)),
            least == Self::values(*old(node))[0],
            Self::values(*final(node)) == Self::values(*old(node)).remove(0),
            Self::count_of(*final(node)) + 1 == Self::count_of(*old(node)),
            Self::cached(*final(node)) == Self::cached(*old(node)) || Self::cached(*final(node))
                + 1 == Self::cached(*old(node)),
        decreases *old(node),
    {
        proof {
            let n = *node.unwrap();
            Self::lemma_avl_iff(*node);
            Self::lemma_avl_iff(n.left);
            Self::lemma_removed_min(*node);
            Self::lemma_avl_iff(Self::removed_min(*node).0);
            lemma_sorted_parts(Self::values(n.left), n.value, Self::values(n.right));
            lemma_sorted_remove(Self::values(*node), 0);
            if n.left is Some {
                Self::lemma_removed_min(n.left);
                n.lemma_shrunk(Node { left: Self::removed_min(n.left).0, ..n });
            }
        }
        if node.as_ref().unwrap().left.is_none() {
            let gone = node.take().unwrap();
            let gone = *gone;
            *node = gone.right;
            return gone.value;
        }
        let top: &mut Box<Node<T>> = node.as_mut().unwrap();
        let least = Self::remove_min(&mut top.left);
        proof {
            top.lemma_rebalanced_of_refreshed();
        }
        top.update_height();
        top.rebalance();
        least
    }

    /// Takes out of a subtree the entry that a search for `value` ends at,
    /// and returns its payload; returns nothing, and leaves the subtree as it
    /// is, if there is no entry that is order-equivalent to `value`.
    pub fn remove(node: &mut Tree<T>, value: &T) -> (removed: Option<T>)
        requires
            total_preorder::<T>(),
            Self::wf(*old(node)),
        ensures
            (*final(node), removed) == Self::removed(*old(node), *value),
            Self::wf(*final(node)),
            Self::cached(*final(node)) == Self::cached(*old(node)) || Self::cached(*final(node))
                + 1 == Self::cached(*old(node)),
            match removed {
                Some(payload) => {
                    &&& equiv(payload, *value)
                    &&& Self::position(*old(node), *value) is Some
                    &&& payload == Self::values(*old(node))[Self::position(
                        *old(node),
                        *value,
                    ).unwrap()]
                    &&& Self::values(*final(node)) == Self::values(*old(node)).remove(
                        Self::position(*old(node), *value).unwrap(),
                    )
                    &&& Self::count_of(*final(node)) + 1 == Self::count_of(*old(node))
                },
                None => {
                    &&& *final(node) == *old(node)
                    &&& forall|i: int|
                        0 <= i < Self::values(*old(node)).len() ==> !equiv(
                            #[trigger] Self::values(*old(node))[i],
                            *value,
                        )
                },
            },
        decreases *old(node),
    {
        proof {
            Self::lemma_avl_iff(*node);
            Self::lemma_position(*node, *value);
            Self::lemma_removed(*node, *value);
            Self::lemma_avl_iff(Self::removed(*node, *value).0);
        }
        if node.is_none() {
            return None;
        }
        proof {
            let n = *node.unwrap();
            Self::lemma_avl_iff(n.left);
            Self::lemma_avl_iff(n.right);
            lemma_sorted_parts(Self::values(n.left), n.value, Self::values(n.right));
            Self::lemma_removed(n.left, *value);
            Self::lemma_removed(n.right, *value);
            n.lemma_shrunk(Node { left: Self::removed(n.left, *value).0, ..n });
            n.lemma_shrunk(Node { right: Self::removed(n.right, *value).0, ..n });
            if n.right is Some {
                Self::lemma_removed_min(n.right);
                let (rest, least) = Self::removed_min(n.right);
                n.lemma_shrunk(Node { right: rest, value: least, ..n });
            }
            if n.left is Some {
                n.left.unwrap().lemma_rebalanced_fixpoint();
            }
        }
        let top: &mut Box<Node<T>> = node.as_mut().unwrap();
        if order_equivalent(&top.value, value) {
            if top.right.is_some() {
                let mut payload = Self::remove_min(&mut top.right);
                std::mem::swap(&mut top.value, &mut payload);
                top.rebalance();
                Some(payload)
            } else {
                let left = top.left.take();
                let gone = node.take();
                *node = left;
                if let Some(child) = node.as_mut() {
                    child.rebalance();
                }
                match gone {
                    Some(boxed) => {
                        let boxed = *boxed;
                        Some(boxed.value)
                    },
                    None => None,
                }
            }
        } else {
            let target: &mut Tree<T> = if *value <= top.value {
                &mut top.left
            } else {
                &mut top.right
            };
            let removed = Self::remove(target, value);
            top.rebalance();
            removed
        }
    }
}

} // verus!
