//! Lasting marks that a food can leave on a friend.

use vstd::prelude::*;

verus! {

/// A lasting mark on a friend.
#[derive(Clone, Copy, Debug, PartialEq, Eq, Hash, Structural)]
pub enum Modifier {
    Honey,
}

impl Modifier {
    /// Position of an optional modifier in the canonical order: none first.
    pub open spec fn code(m: Option<Modifier>) -> nat {
        match m {
            None => 0,
            Some(Modifier::Honey) => 1,
        }
    }

    /// Position of an optional modifier in the canonical order.
    pub fn index(m: &Option<Modifier>) -> (i: usize)
        ensures
            i == Modifier::code(*m),
    {
        match m {
            None => 0,
            Some(Modifier::Honey) => 1,
        }
    }
}

} // verus!
