//! The two child slots of a node, and the direction of a rotation.

use vstd::prelude::*;

verus! {

/// One of the two sides of a node.
#[derive(Debug, PartialEq, Eq, Clone, Copy, Structural)]
pub enum Side {
    Left,
    Right,
}

impl Side {
    /// The other side.
    pub open spec fn opposite(self) -> Side {
        match self {
            Side::Left => Side::Right,
            Side::Right => Side::Left,
        }
    }
}

impl std::ops::Not for Side {
    type Output = Side;

    /// `!side` is the other side.
    fn not(self) -> (r: Side)
        ensures
            r == self.opposite(),
    {
        match self {
            Side::Left => Side::Right,
            Side::Right => Side::Left,
        }
    }
}

impl vstd::std_specs::ops::NotSpecImpl for Side {
    open spec fn obeys_not_spec() -> bool {
        true
    }

    open spec fn not_req(self) -> bool {
        true
    }

    open spec fn not_spec(self) -> Side {
        self.opposite()
    }
}

} // verus!
