//! Construction, disposal, copying and the structural queries of a subtree.
//!
//! The queries trust nothing but the shape: all but [`Node::height`] walk the
//! nodes. [`Node::depth`] is the ground truth that a cached height is held
//! against.

use vstd::prelude::*;
use std::fmt::{Debug, Display};
use crate::node::{larger, Node, Tree};

verus! {

impl<T: Clone + Ord + Eq + Debug + Display> Node<T> {
    /// `copy` has the shape and the cached heights of `source`, and each of
    /// its payloads is a clone of the payload in the same place.
    pub open spec fn copy_of(source: Tree<T>, copy: Tree<T>) -> bool
        decreases source,
    {
        match (source, copy) {
            (Some(a), Some(b)) => {
                &&& cloned(a.value, b.value)
                &&& a.height == b.height
                &&& Self::copy_of(a.left, b.left)
                &&& Self::copy_of(a.right, b.right)
            },
            (None, None) => true,
            _ => false,
        }
    }

    /// Where a clone of a payload is always equal to the payload, a copy of a
    /// subtree is equal to the subtree.
    pub proof fn lemma_copy_of_exact(source: Tree<T>, copy: Tree<T>)
        requires
            Self::copy_of(source, copy),
            forall|a: T, b: T| #[trigger] cloned(a, b) ==> a == b,
        ensures
            source == copy,
        decreases source,
    {
        if let Some(a) = source {
            let b = copy.unwrap();
            Self::lemma_copy_of_exact(a.left, b.left);
            Self::lemma_copy_of_exact(a.right, b.right);
        }
    }

    /// A subtree that is there holds at least one payload.
    pub proof fn lemma_values_nonempty(t: Tree<T>)
        requires
            t is Some,
        ensures
            Self::values(t).len() > 0,
    {
    }

    /// A node without children that holds a clone of `value`.
    pub fn create_node(value: &T) -> (node: Self)
        ensures
            cloned(*value, node.value),
            node == Self::leaf(node.value),
    {
        Node { left: None, right: None, value: value.clone(), height: 1 }
    }

    /// A subtree of one node that holds a clone of `value`.
    pub fn create_tree(value: &T) -> (tree: Tree<T>)
        ensures
            tree is Some,
            cloned(*value, tree.unwrap().value),
            *tree.unwrap() == Self::leaf(tree.unwrap().value),
    {
        Some(Box::new(Self::create_node(value)))
    }

    /// Takes a subtree apart, children first, and leaves the slot empty.
    pub fn delete(node: &mut Tree<T>)
        ensures
            *final(node) is None,
        decreases *old(node),
    {
        if let Some(top) = node.as_mut() {
            let mut left = top.left.take();
            Self::delete(&mut left);
            let mut right = top.right.take();
            Self::delete(&mut right);
        }
        *node = None;
    }

    /// The two child slots, the left one first, so that `Side::Left as usize`
    /// and `Side::Right as usize` index them.
    pub fn children(&self) -> (slots: [&Tree<T>; 2])
        ensures
            *slots[0] == self.left,
            *slots[1] == self.right,
    {
        [&self.left, &self.right]
    }

    /// The true height of the subtree below this node, found by walking it.
    pub fn depth(&self) -> (d: usize)
        requires
            Self::depth_of(self.tree()) <= usize::MAX,
        ensures
            d == Self::depth_of(self.tree()),
        decreases self,
    {
        proof {
            reveal_with_fuel(Node::depth_of, 2);
        }
        let left: usize = match &self.left {
            Some(child) => child.depth(),
            None => 0,
        };
        let right: usize = match &self.right {
            Some(child) => child.depth(),
            None => 0,
        };
        1 + (if left >= right {
            left
        } else {
            right
        })
    }

    /// The number of nodes of the subtree below this node, this one included.
    pub fn count(&self) -> (n: usize)
        requires
            Self::count_of(self.tree()) <= usize::MAX,
        ensures
            n == Self::count_of(self.tree()),
        decreases self,
    {
        proof {
            reveal_with_fuel(Node::count_of, 2);
        }
        let left: usize = match &self.left {
            Some(child) => child.count(),
            None => 0,
        };
        let right: usize = match &self.right {
            Some(child) => child.count(),
            None => 0,
        };
        1 + left + right
    }

    /// The number of leaves of the subtree below this node, where a leaf is a
    /// node that lacks at least one child.
    pub fn width(&self) -> (w: usize)
        requires
            Self::width_of(self.tree()) <= usize::MAX,
        ensures
            w == Self::width_of(self.tree()),
        decreases self,
    {
        proof {
            reveal_with_fuel(Node::width_of, 2);
        }
        let left: usize = match &self.left {
            Some(child) => child.width(),
            None => 1,
        };
        let right: usize = match &self.right {
            Some(child) => child.width(),
            None => 1,
        };
        if self.left.is_none() && self.right.is_none() {
            return 1;
        }
        left + right
    }

    /// The payload of the leftmost node: the first of the in-order sequence.
    pub fn min(&self) -> (least: &T)
        ensures
            *least == Self::values(self.tree()).first(),
        decreases self,
    {
        proof {
            reveal_with_fuel(Node::values, 2);
        }
        match &self.left {
            Some(child) => {
                proof {
                    Self::lemma_values_nonempty(self.left);
                }
                child.min()
            },
            None => &self.value,
        }
    }

    /// The payload of the rightmost node: the last of the in-order sequence.
    pub fn max(&self) -> (greatest: &T)
        ensures
            *greatest == Self::values(self.tree()).last(),
        decreases self,
    {
        proof {
            reveal_with_fuel(Node::values, 2);
        }
        match &self.right {
            Some(child) => {
                proof {
                    Self::lemma_values_nonempty(self.right);
                }
                child.max()
            },
            None => &self.value,
        }
    }

    /// Whether every cached height of the subtree below this node is one more
    /// than the larger cached height of the children. This says nothing of
    /// balance.
    pub fn sanity_check(&self) -> (ok: bool)
        ensures
            ok == Self::heights_ok(self.tree()),
        decreases self,
    {
        proof {
            reveal_with_fuel(Node::heights_ok, 2);
        }
        let lh = self.left_height();
        let rh = self.right_height();
        let top = if lh >= rh {
            lh
        } else {
            rh
        };
        let here = top < usize::MAX && self.height == top + 1;
        let left_ok = match &self.left {
            Some(child) => child.sanity_check(),
            None => true,
        };
        let right_ok = match &self.right {
            Some(child) => child.sanity_check(),
            None => true,
        };
        here && left_ok && right_ok
    }

    /// Whether at every node of the subtree below this one the true heights of
    /// the two children differ by at most one. The cached heights are not
    /// read.
    pub fn is_balanced(&self) -> (ok: bool)
        requires
            Self::depth_of(self.tree()) <= usize::MAX,
        ensures
            ok == Self::balanced(self.tree()),
        decreases self,
    {
        proof {
            reveal_with_fuel(Node::balanced, 2);
            reveal_with_fuel(Node::depth_of, 2);
        }
        let mut lh: usize = 0;
        let mut lb: bool = true;
        if let Some(child) = &self.left {
            lh = child.depth();
            lb = child.is_balanced();
        }
        let mut rh: usize = 0;
        let mut rb: bool = true;
        if let Some(child) = &self.right {
            rh = child.depth();
            rb = child.is_balanced();
        }
        let diff: usize = if lh < rh {
            rh - lh
        } else {
            lh - rh
        };
        diff <= 1 && lb && rb
    }
}

impl<T: Clone + Ord + Eq + Debug + Display> Clone for Node<T> {
    /// A copy of the subtree below this node, payload by payload.
    fn clone(&self) -> (copy: Self)
        ensures
            Node::copy_of(self.tree(), copy.tree()),
        decreases self,
    {
        proof {
            reveal_with_fuel(Node::copy_of, 2);
        }
        let left: Tree<T> = match &self.left {
            Some(child) => Some(Box::new((&**child).clone())),
            None => None,
        };
        let right: Tree<T> = match &self.right {
            Some(child) => Some(Box::new((&**child).clone())),
            None => None,
        };
        Node { left, right, value: self.value.clone(), height: self.height }
    }
}

} // verus!
