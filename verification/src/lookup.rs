//! Finding the entry of a subtree that is order-equivalent to a value.

use vstd::prelude::*;
use std::fmt::{Debug, Display};
use crate::node::{Node, Tree};
use crate::order::{equiv, le, le_laws, lemma_le_trans, order_equivalent, total_preorder};
use crate::sequence::{lemma_sorted_parts, sorted};

verus! {

impl<T: Clone + Ord + Eq + Debug + Display> Node<T> {
    /// The in-order position of the entry that a search for `v` ends at: the
    /// first node on the way down that is order-equivalent to `v`. The way
    /// goes left where `v` is `<=` the payload of a node, and right otherwise.
    pub open spec fn position(t: Tree<T>, v: T) -> Option<int>
        decreases t,
    {
        match t {
            Some(n) => if equiv(n.value, v) {
                Some(Self::values(n.left).len() as int)
            } else if le(v, n.value) {
                Self::position(n.left, v)
            } else {
                match Self::position(n.right, v) {
                    Some(i) => Some(Self::values(n.left).len() + 1 + i),
                    None => None,
                }
            },
            None => None,
        }
    }

    /// The subtree below the entry that a search for `v` ends at, that entry
    /// included; nothing if the search ends at a free slot.
    pub open spec fn lookup(t: Tree<T>, v: T) -> Tree<T>
        decreases t,
    {
        match t {
            Some(n) => if equiv(n.value, v) {
                t
            } else if le(v, n.value) {
                Self::lookup(n.left, v)
            } else {
                Self::lookup(n.right, v)
            },
            None => None,
        }
    }

    /// A search ends at an entry that is order-equivalent to the value, and in
    /// a sorted tree it ends at a free slot only if there is no such entry.
    pub proof fn lemma_position(t: Tree<T>, v: T)
        ensures
            match Self::position(t, v) {
                Some(i) => {
                    &&& 0 <= i < Self::values(t).len()
                    &&& equiv(Self::values(t)[i], v)
                    &&& Self::lookup(t, v) is Some
                    &&& Self::lookup(t, v).unwrap().value == Self::values(t)[i]
                },
                None => {
                    &&& Self::lookup(t, v) is None
                    &&& le_laws::<T>() && sorted(Self::values(t)) ==> forall|i: int|
                        0 <= i < Self::values(t).len() ==> !equiv(#[trigger] Self::values(t)[i], v)
                },
            },
        decreases t,
    {
        if let Some(n) = t {
            let a = Self::values(n.left);
            let b = Self::values(n.right);
            let s = Self::values(t);
            assert(s == a + seq![n.value] + b);
            Self::lemma_position(n.left, v);
            Self::lemma_position(n.right, v);
            if le_laws::<T>() && sorted(s) {
                lemma_sorted_parts(a, n.value, b);
            }
            if equiv(n.value, v) {
                assert(s[a.len() as int] == n.value);
            } else if le(v, n.value) {
                match Self::position(n.left, v) {
                    Some(i) => {
                        assert(s[i] == a[i]);
                    },
                    None => {
                        if le_laws::<T>() && sorted(s) {
                            assert forall|i: int| 0 <= i < s.len() implies !equiv(
                                #[trigger] s[i],
                                v,
                            ) by {
                                if i < a.len() {
                                    assert(s[i] == a[i]);
                                } else if i == a.len() {
                                    assert(s[i] == n.value);
                                } else {
                                    let k = i - a.len() - 1;
                                    assert(s[i] == b[k]);
                                    if equiv(b[k], v) {
                                        lemma_le_trans(n.value, b[k], v);
                                    }
                                }
                            }
                        }
                    },
                }
            } else {
                match Self::position(n.right, v) {
                    Some(i) => {
                        assert(s[a.len() + 1 + i] == b[i]);
                    },
                    None => {
                        if le_laws::<T>() && sorted(s) {
                            assert forall|i: int| 0 <= i < s.len() implies !equiv(
                                #[trigger] s[i],
                                v,
                            ) by {
                                if i < a.len() {
                                    assert(s[i] == a[i]);
                                    if equiv(a[i], v) {
                                        lemma_le_trans(v, a[i], n.value);
                                    }
                                } else if i == a.len() {
                                    assert(s[i] == n.value);
                                } else {
                                    assert(s[i] == b[i - a.len() - 1]);
                                }
                            }
                        }
                    },
                }
            }
        }
    }

    /// What a search in a tree that keeps its invariants ends at keeps them
    /// too.
    pub proof fn lemma_lookup_wf(t: Tree<T>, v: T)
        requires
            Self::wf(t),
        ensures
            Self::wf(Self::lookup(t, v)),
        decreases t,
    {
        if let Some(n) = t {
            lemma_sorted_parts(Self::values(n.left), n.value, Self::values(n.right));
            if equiv(n.value, v) {
            } else if le(v, n.value) {
                Self::lemma_lookup_wf(n.left, v);
            } else {
                Self::lemma_lookup_wf(n.right, v);
            }
        }
    }

    /// Searches the subtree for an entry that is order-equivalent to `value`,
    /// by the order alone, and returns the subtree at the first one met on the
    /// way down; the absent subtree if the search ends at a free slot.
    pub fn get<'a>(tree: &'a Tree<T>, value: &T) -> (found: &'a Tree<T>)
        requires
            total_preorder::<T>(),
        ensures
            *found == Self::lookup(*tree, *value),
            found is Some <==> Self::position(*tree, *value) is Some,
            found is Some ==> equiv(found.unwrap().value, *value),
            found is None && sorted(Self::values(*tree)) ==> forall|i: int|
                0 <= i < Self::values(*tree).len() ==> !equiv(
                    #[trigger] Self::values(*tree)[i],
                    *value,
                ),
        decreases tree,
    {
        proof {
            Self::lemma_position(*tree, *value);
        }
        match tree {
            Some(node) => {
                if order_equivalent(&node.value, value) {
                    tree
                } else if *value <= node.value {
                    Self::get(&node.left, value)
                } else {
                    Self::get(&node.right, value)
                }
            },
            None => tree,
        }
    }
}

} // verus!
