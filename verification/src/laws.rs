//! What holds of a tree after any run of insertions and removals.

use vstd::prelude::*;
use vstd::seq_lib::{to_multiset_insert, to_multiset_remove};
use std::fmt::{Debug, Display};
use crate::node::{Node, Tree};
use crate::order::{equiv, le, le_laws, lemma_le_refl};
use crate::sequence::{lemma_lower_bound, lower_bound, sorted};

verus! {

/// One change of a tree.
pub enum Step<T> {
    /// The value goes in.
    Insert(T),
    /// The entry that a search for the value ends at goes out.
    Remove(T),
}

/// No two elements of `s` are order-equivalent.
pub open spec fn distinct<T: Ord>(s: Seq<T>) -> bool {
    forall|i: int, j: int| 0 <= i < j < s.len() ==> !equiv(#[trigger] s[i], #[trigger] s[j])
}

/// An insertion of each value, in the order of `s`.
pub open spec fn insertions<T>(s: Seq<T>) -> Seq<Step<T>> {
    Seq::new(s.len(), |i: int| Step::Insert(s[i]))
}

/// A removal of each value, in the order of `s`.
pub open spec fn removals<T>(s: Seq<T>) -> Seq<Step<T>> {
    Seq::new(s.len(), |i: int| Step::Remove(s[i]))
}

/// A sequence of distinct values is distinct in any other order.
pub proof fn lemma_distinct_rearranged<T: Ord>(vs: Seq<T>, ws: Seq<T>)
    requires
        le_laws::<T>(),
        distinct(vs),
        vs.to_multiset() == ws.to_multiset(),
    ensures
        distinct(ws),
{
    vs.to_multiset_ensures();
    ws.to_multiset_ensures();
    assert forall|i: int, j: int| 0 <= i < vs.len() && 0 <= j < vs.len() && i != j implies vs[i]
        != vs[j] by {
        lemma_le_refl(vs[i]);
        if i < j {
            assert(!equiv(vs[i], vs[j]));
        } else {
            assert(!equiv(vs[j], vs[i]));
        }
    }
    assert(vs.no_duplicates());
    vs.lemma_multiset_has_no_duplicates();
    ws.lemma_multiset_has_no_duplicates_conv();
    assert forall|i: int, j: int| 0 <= i < j < ws.len() implies !equiv(
        #[trigger] ws[i],
        #[trigger] ws[j],
    ) by {
        assert(ws.contains(ws[i]));
        assert(ws.contains(ws[j]));
        assert(ws.to_multiset().count(ws[i]) > 0);
        assert(ws.to_multiset().count(ws[j]) > 0);
        assert(vs.contains(ws[i]));
        assert(vs.contains(ws[j]));
        let a = choose|a: int| 0 <= a < vs.len() && vs[a] == ws[i];
        let b = choose|b: int| 0 <= b < vs.len() && vs[b] == ws[j];
        assert(ws[i] != ws[j]);
        if a < b {
            assert(!equiv(vs[a], vs[b]));
        } else {
            assert(!equiv(vs[b], vs[a]));
        }
    }
}

impl<T: Clone + Ord + Eq + Debug + Display> Node<T> {
    /// The tree after one change.
    pub open spec fn step(t: Tree<T>, change: Step<T>) -> Tree<T> {
        match change {
            Step::Insert(v) => Self::grown(t, v),
            Step::Remove(v) => Self::removed(t, v).0,
        }
    }

    /// The tree after a run of changes, the first of `steps` first.
    pub open spec fn after(t: Tree<T>, steps: Seq<Step<T>>) -> Tree<T>
        decreases steps.len(),
    {
        if steps.len() == 0 {
            t
        } else {
            Self::after(Self::step(t, steps.first()), steps.drop_first())
        }
    }

    /// A tree with right cached heights is no higher than it has nodes.
    pub proof fn lemma_height_at_most_count(t: Tree<T>)
        requires
            Self::heights_ok(t),
        ensures
            Self::cached(t) <= Self::count_of(t),
    {
        Self::lemma_cached_is_depth(t);
        Self::lemma_count_bounds(t);
    }

    /// One change keeps the invariants of the tree, and adds at most one node.
    pub proof fn lemma_step(t: Tree<T>, change: Step<T>)
        requires
            le_laws::<T>(),
            Self::wf(t),
            Self::count_of(t) < usize::MAX,
        ensures
            Self::wf(Self::step(t, change)),
            Self::count_of(Self::step(t, change)) <= Self::count_of(t) + 1,
    {
        Self::lemma_height_at_most_count(t);
        match change {
            Step::Insert(v) => {
                Self::lemma_grown(t, v);
            },
            Step::Remove(v) => {
                Self::lemma_avl_iff(t);
                Self::lemma_removed(t, v);
                Self::lemma_avl_iff(Self::removed(t, v).0);
            },
        }
    }

    /// After any run of insertions and removals the tree is balanced, its
    /// cached heights are right, and its in-order sequence never steps down.
    pub proof fn lemma_invariants_hold(t: Tree<T>, steps: Seq<Step<T>>)
        requires
            le_laws::<T>(),
            Self::wf(t),
            Self::count_of(t) + steps.len() < usize::MAX,
        ensures
            Self::wf(Self::after(t, steps)),
            Self::balanced(Self::after(t, steps)),
            Self::heights_ok(Self::after(t, steps)),
            sorted(Self::values(Self::after(t, steps))),
            Self::count_of(Self::after(t, steps)) <= Self::count_of(t) + steps.len(),
        decreases steps.len(),
    {
        if steps.len() > 0 {
            Self::lemma_step(t, steps.first());
            Self::lemma_invariants_hold(Self::step(t, steps.first()), steps.drop_first());
        }
    }

    /// In a tree that keeps its invariants, no payload is followed in in-order
    /// by a lesser one.
    pub proof fn lemma_in_order(t: Tree<T>, i: int, j: int)
        requires
            le_laws::<T>(),
            Self::wf(t),
            0 <= i <= j < Self::values(t).len(),
        ensures
            le(Self::values(t)[i], Self::values(t)[j]),
    {
        reveal(sorted);
        lemma_le_refl(Self::values(t)[i]);
    }

    /// A run of changes in two parts is the second part after the first.
    pub proof fn lemma_after_both(t: Tree<T>, first: Seq<Step<T>>, second: Seq<Step<T>>)
        ensures
            Self::after(t, first + second) == Self::after(Self::after(t, first), second),
        decreases first.len(),
    {
        if first.len() == 0 {
            assert(first + second =~= second);
        } else {
            assert((first + second).drop_first() =~= first.drop_first() + second);
            Self::lemma_after_both(
                Self::step(t, first.first()),
                first.drop_first(),
                second,
            );
        }
    }

    /// After a run of insertions the tree holds what it held and each value
    /// that went in, as often as it went in.
    pub proof fn lemma_after_insertions(t: Tree<T>, vs: Seq<T>)
        requires
            le_laws::<T>(),
            Self::wf(t),
            Self::count_of(t) + vs.len() < usize::MAX,
        ensures
            Self::wf(Self::after(t, insertions(vs))),
            Self::values(Self::after(t, insertions(vs))).to_multiset() == Self::values(
                t,
            ).to_multiset().add(vs.to_multiset()),
        decreases vs.len(),
    {
        let steps = insertions(vs);
        if vs.len() == 0 {
            assert(vs.to_multiset() =~= vstd::multiset::Multiset::empty()) by {
                vs.to_multiset_ensures();
            }
            assert(Self::values(t).to_multiset().add(vs.to_multiset()) =~= Self::values(
                t,
            ).to_multiset());
        } else {
            let v = vs.first();
            let rest = vs.drop_first();
            let next = Self::grown(t, v);
            Self::lemma_height_at_most_count(t);
            Self::lemma_grown(t, v);
            lemma_lower_bound(Self::values(t), v);
            to_multiset_insert(Self::values(t), lower_bound(Self::values(t), v), v);
            assert(steps.first() == Step::Insert(v));
            assert(steps.drop_first() =~= insertions(rest));
            Self::lemma_after_insertions(next, rest);
            assert(rest.insert(0, v) =~= vs);
            to_multiset_insert(rest, 0, v);
            assert(Self::values(t).to_multiset().insert(v).add(rest.to_multiset())
                =~= Self::values(t).to_multiset().add(vs.to_multiset()));
        }
    }

    /// Removing each payload of a tree once, in any order, leaves nothing,
    /// if no two of the payloads are order-equivalent.
    pub proof fn lemma_after_removals(t: Tree<T>, ws: Seq<T>)
        requires
            le_laws::<T>(),
            Self::wf(t),
            distinct(ws),
            Self::values(t).to_multiset() == ws.to_multiset(),
        ensures
            Self::after(t, removals(ws)) is None,
        decreases ws.len(),
    {
        let steps = removals(ws);
        let s = Self::values(t);
        s.to_multiset_ensures();
        ws.to_multiset_ensures();
        if ws.len() == 0 {
            if t is Some {
                Self::lemma_values_nonempty(t);
            }
        } else {
            let w = ws.first();
            let rest = ws.drop_first();
            assert(ws.contains(w));
            assert(ws.to_multiset().count(w) > 0);
            assert(s.to_multiset().count(w) > 0);
            assert(s.contains(w));
            let k = choose|k: int| 0 <= k < s.len() && s[k] == w;
            lemma_le_refl(w);
            assert(equiv(s[k], w));
            Self::lemma_position(t, w);
            Self::lemma_avl_iff(t);
            Self::lemma_removed(t, w);
            let p = Self::position(t, w).unwrap();
            let x = s[p];
            assert(s.contains(x));
            assert(s.to_multiset().count(x) > 0);
            assert(ws.to_multiset().count(x) > 0);
            assert(ws.contains(x));
            let j = choose|j: int| 0 <= j < ws.len() && ws[j] == x;
            if j != 0 {
                assert(!equiv(ws[0], ws[j]));
            }
            assert(x == w);
            let next = Self::removed(t, w).0;
            Self::lemma_avl_iff(next);
            to_multiset_remove(s, p);
            assert(rest =~= ws.remove(0));
            to_multiset_remove(ws, 0);
            assert(steps.first() == Step::Remove(w));
            assert(steps.drop_first() =~= removals(rest));
            assert forall|a: int, b: int| 0 <= a < b < rest.len() implies !equiv(
                #[trigger] rest[a],
                #[trigger] rest[b],
            ) by {
                assert(rest[a] == ws[a + 1] && rest[b] == ws[b + 1]);
            }
            Self::lemma_after_removals(next, rest);
        }
    }

    /// Inserting values into an empty tree and then removing each of them
    /// once, in any order, leaves an empty tree, if no two of the values are
    /// order-equivalent.
    pub proof fn lemma_round_trip(vs: Seq<T>, ws: Seq<T>)
        requires
            le_laws::<T>(),
            vs.len() < usize::MAX,
            distinct(vs),
            vs.to_multiset() == ws.to_multiset(),
        ensures
            Self::after(None, insertions(vs) + removals(ws)) is None,
            Self::cached(Self::after(None, insertions(vs) + removals(ws))) == 0,
            Self::count_of(Self::after(None, insertions(vs) + removals(ws))) == 0,
    {
        reveal(sorted);
        lemma_distinct_rearranged(vs, ws);
        let empty: Tree<T> = None;
        assert(Self::wf(empty));
        Self::lemma_after_insertions(empty, vs);
        assert(Self::values(empty).to_multiset().add(vs.to_multiset()) =~= vs.to_multiset()) by {
            Self::values(empty).to_multiset_ensures();
        }
        Self::lemma_after_removals(Self::after(empty, insertions(vs)), ws);
        Self::lemma_after_both(empty, insertions(vs), removals(ws));
    }
}

} // verus!
