//! The Items panel: what the bag carries and how full it is, and what
//! storage holds.

use vstd::prelude::*;
use crate::game::{Item, Player};
use crate::game::player::BAG_CAPACITY;
use super::inventory::{listing_of, sorted, sorted_listing};

verus! {

/// What the Items panel shows.
pub struct Overview {
    /// The bag's entries, in item order.
    pub equipment: Vec<(Item, u32)>,
    /// `(items carried, capacity)`.
    pub equipment_progress: (u32, u32),
    /// Storage's entries, in item order.
    pub storage: Vec<(Item, u32)>,
}

/// The Items panel for `player`.
pub fn overview(player: &Player) -> (r: Overview)
    requires
        player.bag.spec_total() <= u32::MAX,
    ensures
        r.equipment@ == sorted_listing(player.bag@),
        r.equipment_progress == (player.bag.spec_total() as u32, BAG_CAPACITY),
        r.storage@ == sorted_listing(player.inventory@),
{
    Overview {
        equipment: listing_of(&player.bag),
        equipment_progress: player.equipment_progress(),
        storage: sorted(player),
    }
}

} // verus!
