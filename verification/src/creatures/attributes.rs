//! Creature attributes that hold no fractions.
use vstd::prelude::*;

verus! {

/// Hit points of a creature.
#[derive(Clone, Copy, Debug, PartialEq, Eq, Structural)]
pub struct Health(pub i8);

impl Default for Health {
    fn default() -> (h: Health)
        ensures
            h.0 == 0,
    {
        Health(0)
    }
}

} // verus!
