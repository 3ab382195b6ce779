//! The set of gameplay features unlocked so far, used to introduce the game's
//! tabs one at a time.

use vstd::prelude::*;

verus! {

/// One front-end feature that a quest can unlock.
#[derive(Debug, Clone, Copy, PartialEq, Eq, Structural)]
pub enum Unlocked {
    WorldMap,
    Items,
    Craft,
    Disassemble,
    Experiment,
}

} // verus!
