//! The tree as text: each node is written as the array
//! `[payload,left,right]`, where an absent child is written `null`.
//!
//! The text of a payload is what its `Display` gives, taken as it is. The
//! pretty form puts every element on a line of its own, indented by three
//! spaces for each level of nesting.

use vstd::prelude::*;
use vstd::string::{to_string_from_display_ensures, StringExecFns};
use std::fmt::{Debug, Display};
use crate::node::Node;

verus! {

/// The indentation of one level, `level` times.
pub open spec fn pad(level: nat) -> Seq<char>
    decreases level,
{
    if level == 0 {
        Seq::empty()
    } else {
        pad((level - 1) as nat) + "   "@
    }
}

/// The text of one node from the text of its payload and of its two children,
/// where `level` counts the arrays that this one is nested in, itself
/// included.
pub open spec fn layout(
    text: Seq<char>,
    left: Seq<char>,
    right: Seq<char>,
    prettify: bool,
    level: nat,
) -> Seq<char> {
    if prettify {
        let outer: nat = if level >= 1 {
            (level - 1) as nat
        } else {
            0
        };
        "["@ + "\n"@ + pad(level) + text + ","@ + "\n"@ + pad(level) + left + ","@ + "\n"@ + pad(
            level,
        ) + right + "\n"@ + pad(outer) + "]"@
    } else {
        "["@ + text + ","@ + left + ","@ + right + "]"@
    }
}

/// The indentation of `level` levels.
pub fn padding(level: usize) -> (out: String)
    ensures
        out@ == pad(level as nat),
{
    let mut out = String::new();
    let mut i: usize = 0;
    while i < level
        invariant
            i <= level,
            out@ == pad(i as nat),
        decreases level - i,
    {
        out.append("   ");
        i += 1;
    }
    out
}

/// Writes one node from the text of its payload and of its two children.
pub fn bracket(text: &str, left: &str, right: &str, prettify: bool, level: usize) -> (out: String)
    ensures
        out@ == layout(text@, left@, right@, prettify, level as nat),
{
    let mut out = String::from_str("[");
    if prettify {
        let indent = padding(level);
        let outer = padding(if level >= 1 {
            level - 1
        } else {
            0
        });
        out.append("\n");
        out.append(indent.as_str());
        out.append(text);
        out.append(",");
        out.append("\n");
        out.append(indent.as_str());
        out.append(left);
        out.append(",");
        out.append("\n");
        out.append(indent.as_str());
        out.append(right);
        out.append("\n");
        out.append(outer.as_str());
    } else {
        out.append(text);
        out.append(",");
        out.append(left);
        out.append(",");
        out.append(right);
    }
    out.append("]");
    out
}

impl<T: Clone + Ord + Eq + Debug + Display> Node<T> {
    /// `out` is the text of the subtree below this node at nesting `level`,
    /// for some text that `Display` gives for each payload.
    pub open spec fn dumps_to(self, prettify: bool, level: nat, out: Seq<char>) -> bool
        decreases self,
    {
        exists|text: String, left: Seq<char>, right: Seq<char>|
            {
                &&& to_string_from_display_ensures::<T>(&self.value, text)
                &&& match self.left {
                    Some(child) => child.dumps_to(prettify, level + 1, left),
                    None => left == "null"@,
                }
                &&& match self.right {
                    Some(child) => child.dumps_to(prettify, level + 1, right),
                    None => right == "null"@,
                }
                &&& out == #[trigger] layout(text@, left, right, prettify, level)
            }
    }

    /// The text of the subtree below this node; the pretty form if `prettify`
    /// is set.
    pub fn dump(&self, prettify: bool) -> (out: String)
        requires
            Self::depth_of(self.tree()) < usize::MAX,
        ensures
            self.dumps_to(prettify, 1, out@),
    {
        self._dump(prettify, 1)
    }

    /// The text of the subtree below this node, as it stands at nesting
    /// `level` in the text of the whole tree.
    pub fn _dump(&self, prettify: bool, level: usize) -> (out: String)
        requires
            level + Self::depth_of(self.tree()) <= usize::MAX,
        ensures
            self.dumps_to(prettify, level as nat, out@),
        decreases self,
    {
        proof {
            reveal_with_fuel(Node::depth_of, 2);
        }
        let text = self.value.to_string();
        let left = match &self.left {
            Some(child) => child._dump(prettify, level + 1),
            None => String::from_str("null"),
        };
        let right = match &self.right {
            Some(child) => child._dump(prettify, level + 1),
            None => String::from_str("null"),
        };
        let out = bracket(text.as_str(), left.as_str(), right.as_str(), prettify, level);
        proof {
            assert(out@ == layout(text@, left@, right@, prettify, level as nat));
        }
        out
    }
}

} // verus!
