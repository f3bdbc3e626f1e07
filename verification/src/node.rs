//! The node of the tree and the models that the contracts speak of.

use vstd::prelude::*;
use std::fmt::{Debug, Display};
use crate::sequence::sorted;

verus! {

/// A possibly absent subtree: an empty subtree and an empty tree look alike.
pub type Tree<T> = Option<Box<Node<T>>>;

/// A node of the tree. It owns its two subtrees.
///
/// `height` is a cache: it is read by the balancing code and refreshed by
/// every change of shape, and nothing else keeps it right. [`Node::heights_ok`]
/// says when the caches of a subtree can be believed.
#[derive(Debug, PartialEq)]
pub struct Node<T: Clone + Ord + Eq + Debug + Display> {
    pub left: Tree<T>,
    pub right: Tree<T>,
    pub value: T,
    pub height: usize,
}

/// The larger of two numbers.
pub open spec fn larger(a: nat, b: nat) -> nat {
    if a >= b {
        a
    } else {
        b
    }
}

impl<T: Clone + Ord + Eq + Debug + Display> Node<T> {
    /// The height that a subtree has cached at its root; 0 when it is absent.
    pub open spec fn cached(t: Tree<T>) -> nat {
        match t {
            Some(n) => n.height as nat,
            None => 0,
        }
    }

    /// The true height of a subtree: the number of nodes on its longest path.
    pub open spec fn depth_of(t: Tree<T>) -> nat
        decreases t,
    {
        match t {
            Some(n) => 1 + larger(Self::depth_of(n.left), Self::depth_of(n.right)),
            None => 0,
        }
    }

    /// The number of nodes of a subtree.
    pub open spec fn count_of(t: Tree<T>) -> nat
        decreases t,
    {
        match t {
            Some(n) => 1 + Self::count_of(n.left) + Self::count_of(n.right),
            None => 0,
        }
    }

    /// The number of nodes of a subtree that lack at least one child.
    pub open spec fn width_of(t: Tree<T>) -> nat
        decreases t,
    {
        match t {
            Some(n) => (if n.left is None || n.right is None {
                1nat
            } else {
                0nat
            }) + Self::width_of(n.left) + Self::width_of(n.right),
            None => 0,
        }
    }

    /// The payloads of a subtree in in-order: left subtree, node, right subtree.
    pub open spec fn values(t: Tree<T>) -> Seq<T>
        decreases t,
    {
        match t {
            Some(n) => Self::values(n.left) + seq![n.value] + Self::values(n.right),
            None => Seq::empty(),
        }
    }

    /// Every node of the subtree caches one more than the larger cache of its
    /// children.
    pub open spec fn heights_ok(t: Tree<T>) -> bool
        decreases t,
    {
        match t {
            Some(n) => {
                &&& n.height == 1 + larger(Self::cached(n.left), Self::cached(n.right))
                &&& Self::heights_ok(n.left)
                &&& Self::heights_ok(n.right)
            },
            None => true,
        }
    }

    /// At every node of the subtree the true heights of the two children
    /// differ by at most one.
    pub open spec fn balanced(t: Tree<T>) -> bool
        decreases t,
    {
        match t {
            Some(n) => {
                &&& Self::depth_of(n.left) <= Self::depth_of(n.right) + 1
                &&& Self::depth_of(n.right) <= Self::depth_of(n.left) + 1
                &&& Self::balanced(n.left)
                &&& Self::balanced(n.right)
            },
            None => true,
        }
    }

    /// Balance and height correctness in one: every node caches one more than
    /// the larger cache of its children, and the two caches differ by at most
    /// one.
    pub open spec fn avl(t: Tree<T>) -> bool
        decreases t,
    {
        match t {
            Some(n) => {
                &&& n.height == 1 + larger(Self::cached(n.left), Self::cached(n.right))
                &&& Self::cached(n.left) <= Self::cached(n.right) + 1
                &&& Self::cached(n.right) <= Self::cached(n.left) + 1
                &&& Self::avl(n.left)
                &&& Self::avl(n.right)
            },
            None => true,
        }
    }

    /// The invariants of the tree: its in-order sequence never steps down, it
    /// is balanced, and its cached heights are right.
    pub open spec fn wf(t: Tree<T>) -> bool {
        &&& sorted(Self::values(t))
        &&& Self::balanced(t)
        &&& Self::heights_ok(t)
    }

    /// This node as a subtree.
    pub open spec fn tree(self) -> Tree<T> {
        Some(Box::new(self))
    }

    /// A node without children that caches height 1.
    pub open spec fn leaf(value: T) -> Node<T> {
        Node { left: None, right: None, value, height: 1 }
    }

    /// The cached heights are right exactly when each is the true height.
    pub proof fn lemma_cached_is_depth(t: Tree<T>)
        requires
            Self::heights_ok(t),
        ensures
            Self::cached(t) == Self::depth_of(t),
        decreases t,
    {
        if let Some(n) = t {
            Self::lemma_cached_is_depth(n.left);
            Self::lemma_cached_is_depth(n.right);
        }
    }

    /// [`Node::avl`] is balance together with right cached heights.
    pub proof fn lemma_avl_iff(t: Tree<T>)
        ensures
            Self::avl(t) <==> Self::balanced(t) && Self::heights_ok(t),
        decreases t,
    {
        if let Some(n) = t {
            Self::lemma_avl_iff(n.left);
            Self::lemma_avl_iff(n.right);
            if Self::heights_ok(n.left) && Self::heights_ok(n.right) {
                Self::lemma_cached_is_depth(n.left);
                Self::lemma_cached_is_depth(n.right);
            }
        }
    }

    /// A subtree has as many payloads as nodes.
    pub proof fn lemma_values_len(t: Tree<T>)
        ensures
            Self::values(t).len() == Self::count_of(t),
        decreases t,
    {
        if let Some(n) = t {
            Self::lemma_values_len(n.left);
            Self::lemma_values_len(n.right);
        }
    }

    /// No path is longer than the tree has nodes, and no more nodes lack a
    /// child than there are nodes.
    pub proof fn lemma_count_bounds(t: Tree<T>)
        ensures
            Self::depth_of(t) <= Self::count_of(t),
            Self::width_of(t) <= Self::count_of(t),
        decreases t,
    {
        if let Some(n) = t {
            Self::lemma_count_bounds(n.left);
            Self::lemma_count_bounds(n.right);
        }
    }
}

} // verus!
