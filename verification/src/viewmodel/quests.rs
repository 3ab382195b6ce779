//! The Quests panel: the open quest with its progress, what can be taken
//! on, and what is done.

use vstd::prelude::*;
use crate::game::{Game, Quest, QuestID};
use crate::game::quest::{quest_spec, quest_order};
use crate::game::available;

verus! {

/// The open quest and how far along it is.
pub struct ActiveQuest {
    pub quest: Quest,
    pub progress: u32,
}

/// What the Quests panel shows.
pub struct Overview {
    pub active: Option<ActiveQuest>,
    pub available: Vec<Quest>,
    pub completed: Vec<Quest>,
}

/// The Quests panel for `game`.
pub fn overview(game: &Game) -> (r: Overview)
    ensures
        match game.player.open_quest {
            Some(id) => r.active.is_some() && r.active.unwrap().quest@ == quest_spec(id)
                && r.active.unwrap().progress == game.player.quest_progress,
            None => r.active.is_none(),
        },
        r.available@.map_values(|q: Quest| q@) == quest_order().filter(|id: QuestID| available(&game.player, id))
            .map_values(|id: QuestID| quest_spec(id)),
        r.completed@.len() == game.player.spec_completed().len(),
        forall|i: int| 0 <= i < r.completed@.len() ==> (#[trigger] r.completed@[i])@ == quest_spec(game.player.spec_completed()[i]),
{
    let active = match game.player.open_quest() {
        Some(id) => Some(ActiveQuest { quest: game.quest(id), progress: game.player.quest_progress() }),
        None => None,
    };
    let done = game.player.completed_quests();
    let mut completed: Vec<Quest> = Vec::new();
    let mut i: usize = 0;
    while i < done.len()
        invariant
            i <= done@.len(),
            done@ == game.player.spec_completed(),
            completed@.len() == i,
            forall|k: int| 0 <= k < i ==> (#[trigger] completed@[k])@ == quest_spec(game.player.spec_completed()[k]),
        decreases done.len() - i,
    {
        completed.push(game.quest(done[i]));
        i = i + 1;
    }
    Overview { active, available: game.available_quests(), completed }
}

} // verus!
