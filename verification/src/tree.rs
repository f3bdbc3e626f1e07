//! The handle of a tree: an optional root and the operations of a
//! collection.

use vstd::prelude::*;
use vstd::std_specs::cmp::PartialEqSpec;
use std::fmt::{Debug, Display};
use crate::error::TreeError;
use crate::node::{Node, Tree};
use crate::order::{equiv, total_preorder};
use crate::sequence::{lemma_lower_bound, lower_bound};

verus! {

/// An ordered collection that keeps itself balanced.
///
/// The order of `T` places and finds the payloads; its equality is asked only
/// to tell whether an entry that was found is exactly the one that was meant.
/// Payloads that are order-equivalent may be stored side by side.
#[derive(Debug, PartialEq)]
pub struct AvlTree<T: Clone + Ord + Eq + Debug + Display> {
    pub root: Tree<T>,
}

impl<T: Clone + Ord + Eq + Debug + Display> View for AvlTree<T> {
    type V = Seq<T>;

    /// The payloads in in-order.
    open spec fn view(&self) -> Seq<T> {
        Node::values(self.root)
    }
}

impl<T: Clone + Ord + Eq + Debug + Display> AvlTree<T> {
    /// The invariants of the tree: sorted, balanced, cached heights right.
    pub open spec fn wf(self) -> bool {
        Node::wf(self.root)
    }

    /// The in-order position of the entry that a search for `v` ends at.
    pub open spec fn position(self, v: T) -> Option<int> {
        Node::position(self.root, v)
    }

    /// The subtree below the entry that a search for `v` ends at.
    pub open spec fn found(self, v: T) -> Tree<T> {
        Node::lookup(self.root, v)
    }

    /// A tree without entries.
    pub fn new() -> (tree: Self)
        ensures
            tree.root is None,
            tree.wf(),
            tree@ == Seq::<T>::empty(),
    {
        proof {
            reveal(crate::sequence::sorted);
        }
        AvlTree { root: None }
    }

    /// A tree with one entry, a clone of `value`.
    pub fn with(value: &T) -> (tree: Self)
        ensures
            tree.root is Some,
            cloned(*value, tree.root.unwrap().value),
            *tree.root.unwrap() == Node::leaf(tree.root.unwrap().value),
            tree.wf(),
            tree@ == seq![tree.root.unwrap().value],
    {
        let tree = AvlTree { root: Node::create_tree(value) };
        proof {
            reveal(crate::sequence::sorted);
            reveal_with_fuel(Node::balanced, 2);
            reveal_with_fuel(Node::heights_ok, 2);
            reveal_with_fuel(Node::depth_of, 2);
            reveal_with_fuel(Node::values, 2);
            assert(tree@ =~= seq![tree.root.unwrap().value]);
        }
        tree
    }

    /// Puts a clone of `value` into the tree and hands the tree back, so that
    /// calls can be chained. It never fails: an order-equivalent value is
    /// stored as well.
    pub fn insert(&mut self, value: &T) -> (r: Result<&mut Self, TreeError>)
        requires
            total_preorder::<T>(),
            old(self).wf(),
            Node::cached(old(self).root) < usize::MAX,
        ensures
            r is Ok,
            *final(r.unwrap()) == *final(self),
            r.unwrap().wf(),
            exists|stored: T|
                {
                    &&& #[trigger] cloned(*value, stored)
                    &&& r.unwrap().root == Node::grown(old(self).root, stored)
                    &&& r.unwrap()@ == old(self)@.insert(lower_bound(old(self)@, stored), stored)
                },
            r.unwrap()@.len() == old(self)@.len() + 1,
            Node::count_of(r.unwrap().root) == Node::count_of(old(self).root) + 1,
            Node::cached(r.unwrap().root) == Node::cached(old(self).root) || Node::cached(
                r.unwrap().root,
            ) == Node::cached(old(self).root) + 1,
    {
        let stored = value.clone();
        let ghost kept = stored;
        proof {
            Node::lemma_grown(self.root, stored);
            lemma_lower_bound(self@, stored);
        }
        if self.root.is_none() {
            self.root = Some(Box::new(Node { left: None, right: None, value: stored, height: 1 }));
        } else {
            if !self.root.as_mut().unwrap().insert(stored) {
                return Err(TreeError::DuplicateInsert);
            }
        }
        proof {
            assert(cloned(*value, kept));
            assert(self.root == Node::grown(old(self).root, kept));
        }
        Ok(self)
    }

    /// Takes the tree apart and gives the handle up.
    pub fn delete(self) {
        let mut tree = self;
        if !tree.root.is_none() {
            Node::delete(&mut tree.root);
        }
    }

    /// Takes every entry out. The handle can be used again.
    pub fn clear(&mut self)
        ensures
            final(self).root is None,
            final(self).wf(),
            final(self)@ == Seq::<T>::empty(),
    {
        proof {
            reveal(crate::sequence::sorted);
        }
        if !self.root.is_none() {
            Node::delete(&mut self.root);
        }
    }

    /// Takes out the entry that a search for `value` ends at, and hands the
    /// tree back if that entry is equal to `value`.
    ///
    /// The errors, in the order in which they are looked for: `EmptyTree` if
    /// the tree has no entry; `NotFound` if no entry is order-equivalent to
    /// `value`; `MismatchedRemoval` if the entry that was taken out is not
    /// equal to `value`. In the last case the entry is gone all the same.
    pub fn remove(&mut self, value: &T) -> (r: Result<&mut Self, TreeError>)
        requires
            total_preorder::<T>(),
            T::obeys_eq_spec(),
            old(self).wf(),
        ensures
            match r {
                Ok(tree) => {
                    &&& *final(tree) == *final(self)
                    &&& tree.root == Node::removed(old(self).root, *value).0
                    &&& tree.wf()
                    &&& old(self).position(*value) is Some
                    &&& 0 <= old(self).position(*value).unwrap() < old(self)@.len()
                    &&& tree@ == old(self)@.remove(
                        old(self).position(*value).unwrap(),
                    )
                    &&& equiv(old(self)@[old(self).position(*value).unwrap()], *value)
                    &&& old(self)@[old(self).position(*value).unwrap()].eq_spec(value)
                },
                Err(TreeError::EmptyTree) => {
                    &&& old(self).root is None
                    &&& *final(self) == *old(self)
                },
                Err(TreeError::NotFound) => {
                    &&& old(self).root is Some
                    &&& old(self).position(*value) is None
                    &&& forall|i: int|
                        0 <= i < old(self)@.len() ==> !equiv(#[trigger] old(self)@[i], *value)
                    &&& *final(self) == *old(self)
                },
                Err(TreeError::MismatchedRemoval) => {
                    &&& old(self).position(*value) is Some
                    &&& 0 <= old(self).position(*value).unwrap() < old(self)@.len()
                    &&& equiv(old(self)@[old(self).position(*value).unwrap()], *value)
                    &&& !old(self)@[old(self).position(*value).unwrap()].eq_spec(value)
                    &&& final(self).root == Node::removed(old(self).root, *value).0
                    &&& final(self).wf()
                    &&& final(self)@ == old(self)@.remove(
                        old(self).position(*value).unwrap(),
                    )
                },
                Err(_) => false,
            },
    {
        proof {
            Node::lemma_position(self.root, *value);
        }
        if self.root.is_none() {
            Err(TreeError::EmptyTree)
        } else {
            let removed: Option<T> = Node::remove(&mut self.root, value);
            match removed {
                None => Err(TreeError::NotFound),
                Some(payload) => {
                    if payload != *value {
                        Err(TreeError::MismatchedRemoval)
                    } else {
                        Ok(self)
                    }
                },
            }
        }
    }

    /// The tree as text; the pretty form if `prettify` is set. A tree without
    /// entries has no text.
    pub fn dump(&self, prettify: bool) -> (r: Result<String, TreeError>)
        requires
            Node::depth_of(self.root) < usize::MAX,
        ensures
            match r {
                Ok(text) => self.root is Some && self.root.unwrap().dumps_to(prettify, 1, text@),
                Err(e) => self.root is None && e == TreeError::EmptyTree,
            },
    {
        match &self.root {
            None => Err(TreeError::EmptyTree),
            Some(node) => Ok(node.dump(prettify)),
        }
    }

    /// A clone of the first payload on the way down that is order-equivalent
    /// to `value`, by the order alone.
    pub fn get(&self, value: &T) -> (r: Option<T>)
        requires
            total_preorder::<T>(),
        ensures
            match r {
                Some(payload) => {
                    &&& self.found(*value) is Some
                    &&& cloned(self.found(*value).unwrap().value, payload)
                    &&& equiv(self.found(*value).unwrap().value, *value)
                },
                None => self.found(*value) is None,
            },
            self.wf() ==> (r is Some <==> exists|i: int|
                0 <= i < self@.len() && equiv(#[trigger] self@[i], *value)),
    {
        proof {
            Node::lemma_position(self.root, *value);
            if let Some(i) = Node::position(self.root, *value) {
                assert(equiv(self@[i], *value));
            }
        }
        let tree: &Tree<T> = Node::get(&self.root, value);
        match tree {
            Some(node) => Some(node.value.clone()),
            None => None,
        }
    }

    /// A tree of its own that is a copy of the subtree below the first entry
    /// on the way down that is order-equivalent to `value`.
    pub fn find(&self, value: &T) -> (r: Result<Self, TreeError>)
        requires
            total_preorder::<T>(),
        ensures
            match r {
                Ok(tree) => {
                    &&& self.found(*value) is Some
                    &&& Node::copy_of(self.found(*value), tree.root)
                    &&& (forall|a: T, b: T| #[trigger] cloned(a, b) ==> a == b) ==> {
                        &&& tree.root == self.found(*value)
                        &&& self.wf() ==> tree.wf()
                    }
                },
                Err(e) => e == TreeError::NotFound && self.found(*value) is None,
            },
    {
        let tree: &Tree<T> = Node::get(&self.root, value);
        match tree {
            None => Err(TreeError::NotFound),
            Some(node) => {
                let copy = AvlTree { root: Some(Box::new((&**node).clone())) };
                proof {
                    if forall|a: T, b: T| #[trigger] cloned(a, b) ==> a == b {
                        Node::lemma_copy_of_exact(*tree, copy.root);
                        if self.wf() {
                            Node::lemma_lookup_wf(self.root, *value);
                        }
                    }
                }
                Ok(copy)
            },
        }
    }

    /// Whether an entry is order-equivalent to `value`.
    pub fn contains(&self, value: &T) -> (r: bool)
        requires
            total_preorder::<T>(),
        ensures
            r == (self.found(*value) is Some),
            self.wf() ==> (r <==> exists|i: int|
                0 <= i < self@.len() && equiv(#[trigger] self@[i], *value)),
    {
        proof {
            Node::lemma_position(self.root, *value);
            if let Some(i) = Node::position(self.root, *value) {
                assert(equiv(self@[i], *value));
            }
        }
        Node::get(&self.root, value).is_some()
    }

    /// Whether the first entry on the way down that is order-equivalent to
    /// `value` is also equal to it.
    pub fn contains_exact(&self, value: &T) -> (r: bool)
        requires
            total_preorder::<T>(),
            T::obeys_eq_spec(),
        ensures
            r == (self.found(*value) is Some && self.found(*value).unwrap().value.eq_spec(value)),
    {
        let found = Node::get(&self.root, value);
        match found {
            None => false,
            Some(node) => node.value == *value,
        }
    }

    /// Whether the tree has no entry.
    pub fn is_empty(&self) -> (r: bool)
        ensures
            r == (self.root is None),
            r == (self@.len() == 0),
    {
        proof {
            reveal_with_fuel(Node::values, 2);
        }
        self.root.is_none()
    }

    /// Fails, and leaves the tree alone.
    pub fn fail(&mut self) -> (r: Result<&mut Self, TreeError>)
        ensures
            r is Err,
            r->Err_0 == TreeError::AlwaysFails,
            *final(self) == *old(self),
    {
        Err(TreeError::AlwaysFails)
    }

    /// Hands the tree back, unchanged.
    pub fn works(&mut self) -> (r: Result<&mut Self, TreeError>)
        ensures
            r is Ok,
            *r.unwrap() == *old(self),
            *final(r.unwrap()) == *final(self),
    {
        Ok(self)
    }

    /// The height that the root has cached; 0 for a tree without entries.
    /// This is fast, and right as long as the caches are.
    pub fn height(&self) -> (h: usize)
        ensures
            h == Node::cached(self.root),
            Node::heights_ok(self.root) ==> h == Node::depth_of(self.root),
    {
        proof {
            if Node::heights_ok(self.root) {
                Node::lemma_cached_is_depth(self.root);
            }
        }
        match &self.root {
            Some(node) => node.height(),
            None => 0,
        }
    }

    /// The true height, found by walking the tree.
    pub fn depth(&self) -> (d: usize)
        requires
            Node::depth_of(self.root) <= usize::MAX,
        ensures
            d == Node::depth_of(self.root),
    {
        match &self.root {
            Some(node) => node.depth(),
            None => 0,
        }
    }

    /// The number of leaves, where a leaf is a node that lacks at least one
    /// child.
    pub fn width(&self) -> (w: usize)
        requires
            Node::width_of(self.root) <= usize::MAX,
        ensures
            w == Node::width_of(self.root),
    {
        match &self.root {
            Some(node) => node.width(),
            None => 0,
        }
    }

    /// The number of entries.
    pub fn count(&self) -> (n: usize)
        requires
            Node::count_of(self.root) <= usize::MAX,
        ensures
            n == Node::count_of(self.root),
            n == self@.len(),
    {
        proof {
            Node::lemma_values_len(self.root);
        }
        match &self.root {
            Some(node) => node.count(),
            None => 0,
        }
    }

    /// A clone of the leftmost payload.
    pub fn min(&self) -> (r: Option<T>)
        ensures
            match r {
                Some(payload) => self.root is Some && cloned(self@.first(), payload),
                None => self.root is None,
            },
    {
        match &self.root {
            Some(node) => Some(node.min().clone()),
            None => None,
        }
    }

    /// A clone of the rightmost payload.
    pub fn max(&self) -> (r: Option<T>)
        ensures
            match r {
                Some(payload) => self.root is Some && cloned(self@.last(), payload),
                None => self.root is None,
            },
    {
        match &self.root {
            Some(node) => Some(node.max().clone()),
            None => None,
        }
    }

    /// Whether the tree is balanced, by the true heights. This walks the tree
    /// many times over and does not read the caches.
    pub fn is_balanced(&self) -> (r: bool)
        requires
            Node::depth_of(self.root) <= usize::MAX,
        ensures
            r == Node::balanced(self.root),
            self.wf() ==> r,
    {
        match &self.root {
            Some(node) => node.is_balanced(),
            None => true,
        }
    }

    /// Whether the cached heights are right. This says nothing of balance.
    pub fn is_correct(&self) -> (r: bool)
        ensures
            r == Node::heights_ok(self.root),
            self.wf() ==> r,
    {
        match &self.root {
            Some(node) => node.sanity_check(),
            None => true,
        }
    }
}

impl<T: Clone + Ord + Eq + Debug + Display> Clone for AvlTree<T> {
    /// A copy of the tree, payload by payload.
    fn clone(&self) -> (copy: Self)
        ensures
            Node::copy_of(self.root, copy.root),
            (forall|a: T, b: T| #[trigger] cloned(a, b) ==> a == b) ==> copy == *self,
    {
        let copy = match &self.root {
            Some(node) => AvlTree { root: Some(Box::new((&**node).clone())) },
            None => AvlTree { root: None },
        };
        proof {
            if forall|a: T, b: T| #[trigger] cloned(a, b) ==> a == b {
                Node::lemma_copy_of_exact(self.root, copy.root);
            }
        }
        copy
    }
}

} // verus!
