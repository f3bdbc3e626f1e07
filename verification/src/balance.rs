//! Cached heights, the balance factor, rotations and the rebalancing step.

use vstd::prelude::*;
use std::fmt::{Debug, Display};
use std::ops::Not;
use crate::node::{larger, Node, Tree};
use crate::side::Side;

verus! {

/// `d`, held within what a small signed integer can carry with either sign.
pub open spec fn saturated(d: int) -> int {
    if d > 127 {
        127
    } else if d < -127 {
        -127
    } else {
        d
    }
}

impl<T: Clone + Ord + Eq + Debug + Display> Node<T> {
    /// The child on one side.
    pub open spec fn child(self, side: Side) -> Tree<T> {
        match side {
            Side::Left => self.left,
            Side::Right => self.right,
        }
    }

    /// This node with another child on one side.
    pub open spec fn with_child(self, side: Side, t: Tree<T>) -> Node<T> {
        match side {
            Side::Left => Node { left: t, ..self },
            Side::Right => Node { right: t, ..self },
        }
    }

    /// One more than the larger cached height of two subtrees can be cached.
    pub open spec fn fits(a: Tree<T>, b: Tree<T>) -> bool {
        1 + larger(Self::cached(a), Self::cached(b)) <= usize::MAX
    }

    /// A node over two subtrees, with the height that their caches give.
    pub open spec fn join(left: Tree<T>, value: T, right: Tree<T>) -> Node<T> {
        Node {
            left,
            right,
            value,
            height: (1 + larger(Self::cached(left), Self::cached(right))) as usize,
        }
    }

    /// This node with its cached height computed anew from its children.
    pub open spec fn refreshed(self) -> Node<T> {
        Self::join(self.left, self.value, self.right)
    }

    /// The balance factor: cached height on the left minus that on the right.
    pub open spec fn balance_spec(self) -> int {
        Self::cached(self.left) - Self::cached(self.right)
    }

    /// The cached height of the left child, 0 if there is none.
    pub fn left_height(&self) -> (h: usize)
        ensures
            h == Self::cached(self.left),
    {
        match &self.left {
            Some(left) => left.height,
            None => 0,
        }
    }

    /// The cached height of the right child, 0 if there is none.
    pub fn right_height(&self) -> (h: usize)
        ensures
            h == Self::cached(self.right),
    {
        match &self.right {
            Some(right) => right.height,
            None => 0,
        }
    }

    /// The cached height of this node.
    pub fn height(&self) -> (h: usize)
        ensures
            h == self.height,
    {
        self.height
    }

    /// Computes the cached height anew from the caches of the children.
    pub fn update_height(&mut self)
        requires
            Self::fits(old(self).left, old(self).right),
        ensures
            *final(self) == old(self).refreshed(),
    {
        let lh = self.left_height();
        let rh = self.right_height();
        self.height = 1 + (if lh >= rh {
            lh
        } else {
            rh
        });
    }

    /// The balance factor as a small signed integer. It is exact between -127
    /// and 127 and stops there.
    pub fn balance_factor(&self) -> (b: i8)
        ensures
            b == saturated(self.balance_spec()),
    {
        let lh = self.left_height();
        let rh = self.right_height();
        if lh >= rh {
            let d = lh - rh;
            if d > 127 {
                127
            } else {
                d as i8
            }
        } else {
            let d = rh - lh;
            if d > 127 {
                -127
            } else {
                -(d as i8)
            }
        }
    }

    /// What [`Node::rotate`] makes of this node.
    ///
    /// A rotation to a side lifts the child of the other side to the top. The
    /// old top goes down to `side` and takes over the subtree that the lifted
    /// child had on that side. Without a child to lift nothing changes.
    pub open spec fn rotated(self, side: Side) -> Node<T> {
        match side {
            Side::Left => match self.right {
                Some(pivot) => Self::join(
                    Some(Box::new(Self::join(self.left, self.value, pivot.left))),
                    pivot.value,
                    pivot.right,
                ),
                None => self,
            },
            Side::Right => match self.left {
                Some(pivot) => Self::join(
                    pivot.left,
                    pivot.value,
                    Some(Box::new(Self::join(pivot.right, self.value, self.right))),
                ),
                None => self,
            },
        }
    }

    /// The two heights that a rotation computes can be cached.
    pub open spec fn rotate_fits(self, side: Side) -> bool {
        match side {
            Side::Left => match self.right {
                Some(pivot) => {
                    &&& Self::fits(self.left, pivot.left)
                    &&& Self::fits(
                        Some(Box::new(Self::join(self.left, self.value, pivot.left))),
                        pivot.right,
                    )
                },
                None => true,
            },
            Side::Right => match self.left {
                Some(pivot) => {
                    &&& Self::fits(pivot.right, self.right)
                    &&& Self::fits(
                        pivot.left,
                        Some(Box::new(Self::join(pivot.right, self.value, self.right))),
                    )
                },
                None => true,
            },
        }
    }

    /// The slot of the child on one side.
    fn slot(&mut self, side: Side) -> (s: &mut Tree<T>)
        ensures
            *s == old(self).child(side),
            *final(self) == old(self).with_child(side, *final(s)),
    {
        match side {
            Side::Left => &mut self.left,
            Side::Right => &mut self.right,
        }
    }

    /// Rotates this node to `side`, in place. Returns `false`, and changes
    /// nothing, if there is no child on the other side to lift.
    pub fn rotate(&mut self, side: Side) -> (done: bool)
        requires
            old(self).rotate_fits(side),
        ensures
            *final(self) == old(self).rotated(side),
            done == (old(self).child(side.opposite()) is Some),
    {
        let other = side.not();
        if self.slot(other).is_none() {
            return false;
        }
        let pivot: &mut Box<Node<T>> = self.slot(other).as_mut().unwrap();
        let inner = pivot.slot(side).take();
        let outer = pivot.slot(other).take();
        let mut lifted = self.slot(other).take();
        *self.slot(other) = outer;
        std::mem::swap(&mut self.value, &mut lifted.as_mut().unwrap().value);
        let near = self.slot(side).take();
        let demoted: &mut Box<Node<T>> = lifted.as_mut().unwrap();
        *demoted.slot(other) = inner;
        *demoted.slot(side) = near;
        *self.slot(side) = lifted;
        if let Some(node) = self.slot(side).as_mut() {
            node.update_height();
        }
        self.update_height();
        true
    }

    /// What [`Node::rebalance`] makes of this node.
    ///
    /// With a balance factor of -2 the node is rotated to the left, after its
    /// right child was rotated to the right if that child leans left. With 2
    /// it is the mirror image. With any other factor only the cached height is
    /// computed anew.
    #[verifier::opaque]
    pub open spec fn rebalanced(self) -> Node<T> {
        if self.balance_spec() == -2 {
            let child = *self.right.unwrap();
            let child = if child.balance_spec() == 1 {
                child.rotated(Side::Right)
            } else {
                child
            };
            Node { right: Some(Box::new(child)), ..self }.rotated(Side::Left)
        } else if self.balance_spec() == 2 {
            let child = *self.left.unwrap();
            let child = if child.balance_spec() == -1 {
                child.rotated(Side::Left)
            } else {
                child
            };
            Node { left: Some(Box::new(child)), ..self }.rotated(Side::Right)
        } else {
            self.refreshed()
        }
    }

    /// Every height that rebalancing computes can be cached.
    #[verifier::opaque]
    pub open spec fn rebalance_fits(self) -> bool {
        if self.balance_spec() == -2 {
            let child = *self.right.unwrap();
            let turned = if child.balance_spec() == 1 {
                child.rotated(Side::Right)
            } else {
                child
            };
            &&& child.balance_spec() == 1 ==> child.rotate_fits(Side::Right)
            &&& Node { right: Some(Box::new(turned)), ..self }.rotate_fits(Side::Left)
        } else if self.balance_spec() == 2 {
            let child = *self.left.unwrap();
            let turned = if child.balance_spec() == -1 {
                child.rotated(Side::Left)
            } else {
                child
            };
            &&& child.balance_spec() == -1 ==> child.rotate_fits(Side::Left)
            &&& Node { left: Some(Box::new(turned)), ..self }.rotate_fits(Side::Right)
        } else {
            Self::fits(self.left, self.right)
        }
    }

    /// Restores the balance of this node after one of its children grew or
    /// shrank by one, and refreshes its cached height. Returns whether it
    /// rotated.
    pub fn rebalance(&mut self) -> (turned: bool)
        requires
            old(self).rebalance_fits(),
        ensures
            *final(self) == old(self).rebalanced(),
            turned == (old(self).balance_spec() == -2 || old(self).balance_spec() == 2),
    {
        proof {
            reveal(Node::rebalanced);
            reveal(Node::rebalance_fits);
        }
        let balance = self.balance_factor();
        if balance == -2 {
            let right_node: &mut Box<Node<T>> = self.right.as_mut().unwrap();
            if right_node.balance_factor() == 1 {
                right_node.rotate(Side::Right);
            }
            self.rotate(Side::Left);
            true
        } else if balance == 2 {
            let left_node: &mut Box<Node<T>> = self.left.as_mut().unwrap();
            if left_node.balance_factor() == -1 {
                left_node.rotate(Side::Left);
            }
            self.rotate(Side::Right);
            true
        } else {
            self.update_height();
            false
        }
    }

    /// A rotation keeps the in-order sequence and the number of nodes.
    pub proof fn lemma_rotated_values(self, side: Side)
        ensures
            Self::values(self.rotated(side).tree()) == Self::values(self.tree()),
            Self::count_of(self.rotated(side).tree()) == Self::count_of(self.tree()),
    {
        reveal_with_fuel(Node::values, 3);
        reveal_with_fuel(Node::count_of, 3);
        assert(Self::values(self.rotated(side).tree()) =~= Self::values(self.tree()));
    }

    /// A rotation to one side and then one to the other give the node back,
    /// if there is a child to lift and the two nodes that change places cache
    /// the right heights.
    pub proof fn lemma_rotate_back(self, side: Side)
        requires
            self.child(side.opposite()) is Some,
            self.rotate_fits(side),
            self.height == 1 + larger(Self::cached(self.left), Self::cached(self.right)),
            Self::cached(self.child(side.opposite())) == 1 + larger(
                Self::cached(self.child(side.opposite()).unwrap().left),
                Self::cached(self.child(side.opposite()).unwrap().right),
            ),
        ensures
            self.rotated(side).child(side) is Some,
            self.rotated(side).rotate_fits(side.opposite()),
            self.rotated(side).rotated(side.opposite()) == self,
    {
    }

    /// Rebalancing keeps the in-order sequence and the number of nodes.
    pub proof fn lemma_rebalanced_values(self)
        ensures
            Self::values(self.rebalanced().tree()) == Self::values(self.tree()),
            Self::count_of(self.rebalanced().tree()) == Self::count_of(self.tree()),
    {
        reveal(Node::rebalanced);
        if self.balance_spec() == -2 {
            let child = *self.right.unwrap();
            let turned = if child.balance_spec() == 1 {
                child.rotated(Side::Right)
            } else {
                child
            };
            child.lemma_rotated_values(Side::Right);
            let mid = Node { right: Some(Box::new(turned)), ..self };
            mid.lemma_rotated_values(Side::Left);
            assert(Self::values(mid.tree()) =~= Self::values(self.tree()));
        } else if self.balance_spec() == 2 {
            let child = *self.left.unwrap();
            let turned = if child.balance_spec() == -1 {
                child.rotated(Side::Left)
            } else {
                child
            };
            child.lemma_rotated_values(Side::Left);
            let mid = Node { left: Some(Box::new(turned)), ..self };
            mid.lemma_rotated_values(Side::Right);
            assert(Self::values(mid.tree()) =~= Self::values(self.tree()));
        } else {
            assert(Self::values(self.rebalanced().tree()) =~= Self::values(self.tree()));
        }
    }

    /// The case of [`Node::lemma_rebalanced`] in which the right side is two
    /// higher than the left.
    proof fn lemma_rebalanced_right_heavy(self)
        requires
            Self::avl(self.left),
            Self::avl(self.right),
            self.balance_spec() == -2,
            Self::cached(self.right) < usize::MAX,
        ensures
            self.rebalance_fits(),
            Self::avl(self.rebalanced().tree()),
            self.rebalanced().height == Self::cached(self.right) || self.rebalanced().height
                == 1 + Self::cached(self.right),
    {
        reveal(Node::rebalanced);
        reveal(Node::rebalance_fits);
        let child = *self.right.unwrap();
        assert(Self::avl(child.left));
        assert(Self::avl(child.right));
        if child.balance_spec() == 1 {
            let inner = *child.left.unwrap();
            assert(Self::avl(inner.left));
            assert(Self::avl(inner.right));
            let turned = child.rotated(Side::Right);
            assert(child.rotate_fits(Side::Right));
            let low = Self::join(inner.right, child.value, child.right);
            assert(turned == Self::join(inner.left, inner.value, Some(Box::new(low))));
            let mid = Node { right: Some(Box::new(turned)), ..self };
            assert(mid.rotate_fits(Side::Left));
            let demoted = Self::join(self.left, self.value, inner.left);
            assert(mid.rotated(Side::Left) == Self::join(
                Some(Box::new(demoted)),
                inner.value,
                Some(Box::new(low)),
            ));
            assert(Self::avl(demoted.tree()));
            assert(Self::avl(low.tree()));
        } else {
            let demoted = Self::join(self.left, self.value, child.left);
            assert(self.rotate_fits(Side::Left));
            assert(self.rebalanced() == Self::join(
                Some(Box::new(demoted)),
                child.value,
                child.right,
            ));
            assert(Self::avl(demoted.tree()));
        }
    }

    /// The case of [`Node::lemma_rebalanced`] in which the left side is two
    /// higher than the right.
    proof fn lemma_rebalanced_left_heavy(self)
        requires
            Self::avl(self.left),
            Self::avl(self.right),
            self.balance_spec() == 2,
            Self::cached(self.left) < usize::MAX,
        ensures
            self.rebalance_fits(),
            Self::avl(self.rebalanced().tree()),
            self.rebalanced().height == Self::cached(self.left) || self.rebalanced().height == 1
                + Self::cached(self.left),
    {
        reveal(Node::rebalanced);
        reveal(Node::rebalance_fits);
        let child = *self.left.unwrap();
        assert(Self::avl(child.left));
        assert(Self::avl(child.right));
        if child.balance_spec() == -1 {
            let inner = *child.right.unwrap();
            assert(Self::avl(inner.left));
            assert(Self::avl(inner.right));
            let turned = child.rotated(Side::Left);
            assert(child.rotate_fits(Side::Left));
            let low = Self::join(child.left, child.value, inner.left);
            assert(turned == Self::join(Some(Box::new(low)), inner.value, inner.right));
            let mid = Node { left: Some(Box::new(turned)), ..self };
            assert(mid.rotate_fits(Side::Right));
            let demoted = Self::join(inner.right, self.value, self.right);
            assert(mid.rotated(Side::Right) == Self::join(
                Some(Box::new(low)),
                inner.value,
                Some(Box::new(demoted)),
            ));
            assert(Self::avl(demoted.tree()));
            assert(Self::avl(low.tree()));
        } else {
            let demoted = Self::join(child.right, self.value, self.right);
            assert(self.rotate_fits(Side::Right));
            assert(self.rebalanced() == Self::join(
                child.left,
                child.value,
                Some(Box::new(demoted)),
            ));
            assert(Self::avl(demoted.tree()));
        }
    }

    /// Rebalancing a node whose children are balanced and whose cached heights
    /// differ by at most two gives a balanced subtree with the same in-order
    /// sequence. Its height is that of the taller child or one more.
    pub proof fn lemma_rebalanced(self)
        requires
            Self::avl(self.left),
            Self::avl(self.right),
            -2 <= self.balance_spec() <= 2,
            larger(Self::cached(self.left), Self::cached(self.right)) < usize::MAX,
        ensures
            self.rebalance_fits(),
            Self::avl(self.rebalanced().tree()),
            Self::values(self.rebalanced().tree()) == Self::values(self.tree()),
            Self::count_of(self.rebalanced().tree()) == Self::count_of(self.tree()),
            -1 <= self.balance_spec() <= 1 ==> self.rebalanced() == self.refreshed(),
            self.rebalanced().height == larger(Self::cached(self.left), Self::cached(self.right))
                || self.rebalanced().height == 1 + larger(
                Self::cached(self.left),
                Self::cached(self.right),
            ),
    {
        self.lemma_rebalanced_values();
        if self.balance_spec() == -2 {
            self.lemma_rebalanced_right_heavy();
        } else if self.balance_spec() == 2 {
            self.lemma_rebalanced_left_heavy();
        } else {
            reveal(Node::rebalanced);
            reveal(Node::rebalance_fits);
        }
    }

    /// Rebalancing does not read the cached height of the node itself.
    pub proof fn lemma_rebalanced_of_refreshed(self)
        ensures
            self.refreshed().rebalanced() == self.rebalanced(),
            self.refreshed().rebalance_fits() == self.rebalance_fits(),
    {
        reveal(Node::rebalanced);
        reveal(Node::rebalance_fits);
    }

    /// Rebalancing changes nothing in a balanced subtree.
    pub proof fn lemma_rebalanced_fixpoint(self)
        requires
            Self::avl(self.tree()),
        ensures
            self.rebalance_fits(),
            self.rebalanced() == self,
    {
        reveal(Node::rebalanced);
        reveal(Node::rebalance_fits);
    }
}

} // verus!
