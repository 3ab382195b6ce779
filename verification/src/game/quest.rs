//! Quests: goals the player takes on one at a time, with their rewards.

use vstd::prelude::*;
use super::item::Item;
use super::map::{Poi, TerrainType};
use super::unlock::Unlocked;
use crate::seqs::copy_vec;

verus! {

#[derive(Debug, Clone, Copy, PartialEq, Eq, Structural)]
pub enum QuestID {
    ExploreRuins,
    OldCivilization,
    CraftAxe,
    StockUp,
}

/// Failure reasons for accepting a quest.
#[derive(Debug, Clone, Copy, PartialEq, Eq, Structural)]
pub enum QuestError {
    /// Another quest is already open; only one can be active at a time.
    AnotherQuestActive,
    /// This quest is already among the completed quests.
    AlreadyCompleted,
    /// Not every quest in the quest's dependencies has been completed yet.
    DependenciesNotMet,
}

/// A game action that can count toward an open quest's condition. Fired at
/// the moment the action happens; never stored or replayed.
#[derive(Debug, Clone, Copy, PartialEq, Eq, Structural)]
pub enum EventTypeID {
    FindItem(Item),
    CraftItem(Item),
    VisitTerrain(TerrainType),
    VisitPoi(Poi),
    /// One successful hunt: a hunt that kept at least one thing.
    Hunt,
}

/// What it takes to complete a quest: `count` occurrences of `event`.
#[derive(Debug, Clone, Copy, PartialEq, Eq, Structural)]
pub struct QuestCondition {
    pub event: EventTypeID,
    pub count: u32,
}

impl QuestCondition {
    /// Whether `event` is the kind of occurrence this condition counts.
    pub fn matches(&self, event: EventTypeID) -> (r: bool)
        ensures
            r == (self.event == event),
    {
        self.event == event
    }

    /// Whether `progress` occurrences are enough to satisfy this condition.
    pub fn is_satisfied_by(&self, progress: u32) -> (r: bool)
        ensures
            r == (progress >= self.count),
    {
        progress >= self.count
    }
}

/// One quest of the quest table.
#[derive(Debug)]
pub struct Quest {
    pub id: QuestID,
    pub dependencies: Vec<QuestID>,
    pub condition: QuestCondition,
    pub reward_xp: u32,
    pub reward_items: Vec<(Item, u32)>,
    /// Front-end features unlocked the moment this quest is accepted.
    pub unlocks_on_accept: Vec<Unlocked>,
    /// Front-end features unlocked once this quest is completed.
    pub unlocks_on_complete: Vec<Unlocked>,
}

/// The mathematical content of a quest.
pub struct QuestView {
    pub id: QuestID,
    pub dependencies: Seq<QuestID>,
    pub condition: QuestCondition,
    pub reward_xp: u32,
    pub reward_items: Seq<(Item, u32)>,
    pub unlocks_on_accept: Seq<Unlocked>,
    pub unlocks_on_complete: Seq<Unlocked>,
}

impl View for Quest {
    type V = QuestView;

    open spec fn view(&self) -> QuestView {
        QuestView {
            id: self.id,
            dependencies: self.dependencies@,
            condition: self.condition,
            reward_xp: self.reward_xp,
            reward_items: self.reward_items@,
            unlocks_on_accept: self.unlocks_on_accept@,
            unlocks_on_complete: self.unlocks_on_complete@,
        }
    }
}

impl Clone for Quest {
    fn clone(&self) -> (r: Quest)
        ensures
            r@ == self@,
    {
        Quest {
            id: self.id,
            dependencies: copy_vec(&self.dependencies),
            condition: self.condition,
            reward_xp: self.reward_xp,
            reward_items: copy_vec(&self.reward_items),
            unlocks_on_accept: copy_vec(&self.unlocks_on_accept),
            unlocks_on_complete: copy_vec(&self.unlocks_on_complete),
        }
    }
}

impl Quest {
    /// Occurrences of the condition's event needed to complete this quest.
    pub fn goal(&self) -> (r: u32)
        ensures
            r == self.condition.count,
    {
        self.condition.count
    }
}

/// The quest table entry for `id`.
pub open spec fn quest_spec(id: QuestID) -> QuestView {
    match id {
        QuestID::ExploreRuins => QuestView {
            id: QuestID::ExploreRuins,
            dependencies: seq![],
            condition: QuestCondition { event: EventTypeID::VisitPoi(Poi::Ruins), count: 1 },
            reward_xp: 10,
            reward_items: seq![],
            unlocks_on_accept: seq![Unlocked::WorldMap],
            unlocks_on_complete: seq![],
        },
        QuestID::OldCivilization => QuestView {
            id: QuestID::OldCivilization,
            dependencies: seq![QuestID::ExploreRuins],
            condition: QuestCondition { event: EventTypeID::FindItem(Item::CopperWire), count: 1 },
            reward_xp: 10,
            reward_items: seq![(Item::CircuitBoard, 1u32)],
            unlocks_on_accept: seq![Unlocked::Items],
            unlocks_on_complete: seq![],
        },
        QuestID::CraftAxe => QuestView {
            id: QuestID::CraftAxe,
            dependencies: seq![QuestID::OldCivilization],
            condition: QuestCondition { event: EventTypeID::CraftItem(Item::StoneAxe), count: 1 },
            reward_xp: 20,
            reward_items: seq![(Item::SolarPanel, 1u32)],
            unlocks_on_accept: seq![Unlocked::Experiment],
            unlocks_on_complete: seq![Unlocked::Craft, Unlocked::Disassemble],
        },
        QuestID::StockUp => QuestView {
            id: QuestID::StockUp,
            dependencies: seq![QuestID::CraftAxe],
            condition: QuestCondition { event: EventTypeID::Hunt, count: 5 },
            reward_xp: 30,
            reward_items: seq![(Item::Microcontroller, 1u32)],
            unlocks_on_accept: seq![],
            unlocks_on_complete: seq![],
        },
    }
}

/// What each quest asks and gives: Explore Ruins (visit the Ruins once) is
/// open from the start and gives 10 experience; What the Ruins Kept (find a
/// Copper Wire) follows it and gives 10 experience and a Circuit Board; the
/// axe quest (craft a Stone Axe) follows that and gives 20 experience and a
/// Solar Panel; Stock Up (five successful hunts) follows the axe quest and
/// gives 30 experience and a Microcontroller.
pub proof fn lemma_quest_table()
    ensures
        quest_spec(QuestID::ExploreRuins).dependencies == Seq::<QuestID>::empty(),
        quest_spec(QuestID::ExploreRuins).condition == (QuestCondition { event: EventTypeID::VisitPoi(Poi::Ruins), count: 1 }),
        quest_spec(QuestID::ExploreRuins).reward_xp == 10,
        quest_spec(QuestID::ExploreRuins).reward_items == Seq::<(Item, u32)>::empty(),
        quest_spec(QuestID::OldCivilization).dependencies == seq![QuestID::ExploreRuins],
        quest_spec(QuestID::OldCivilization).condition == (QuestCondition { event: EventTypeID::FindItem(Item::CopperWire), count: 1 }),
        quest_spec(QuestID::OldCivilization).reward_xp == 10,
        quest_spec(QuestID::OldCivilization).reward_items == seq![(Item::CircuitBoard, 1u32)],
        quest_spec(QuestID::CraftAxe).dependencies == seq![QuestID::OldCivilization],
        quest_spec(QuestID::CraftAxe).condition == (QuestCondition { event: EventTypeID::CraftItem(Item::StoneAxe), count: 1 }),
        quest_spec(QuestID::CraftAxe).reward_xp == 20,
        quest_spec(QuestID::CraftAxe).reward_items == seq![(Item::SolarPanel, 1u32)],
        quest_spec(QuestID::StockUp).dependencies == seq![QuestID::CraftAxe],
        quest_spec(QuestID::StockUp).condition == (QuestCondition { event: EventTypeID::Hunt, count: 5 }),
        quest_spec(QuestID::StockUp).reward_xp == 30,
        quest_spec(QuestID::StockUp).reward_items == seq![(Item::Microcontroller, 1u32)],
        forall|id: QuestID| #[trigger] quest_spec(id).id == id,
{
}

/// The order quests are listed in.
pub open spec fn quest_order() -> Seq<QuestID> {
    seq![QuestID::ExploreRuins, QuestID::OldCivilization, QuestID::CraftAxe, QuestID::StockUp]
}

/// Looks up a quest by id.
pub fn quest_for(id: QuestID) -> (r: Quest)
    ensures
        r@ == quest_spec(id),
{
    let r = match id {
        QuestID::ExploreRuins => Quest {
            id: QuestID::ExploreRuins,
            dependencies: vec![],
            condition: QuestCondition { event: EventTypeID::VisitPoi(Poi::Ruins), count: 1 },
            reward_xp: 10,
            reward_items: vec![],
            unlocks_on_accept: vec![Unlocked::WorldMap],
            unlocks_on_complete: vec![],
        },
        QuestID::OldCivilization => Quest {
            id: QuestID::OldCivilization,
            dependencies: vec![QuestID::ExploreRuins],
            condition: QuestCondition { event: EventTypeID::FindItem(Item::CopperWire), count: 1 },
            reward_xp: 10,
            reward_items: vec![(Item::CircuitBoard, 1)],
            unlocks_on_accept: vec![Unlocked::Items],
            unlocks_on_complete: vec![],
        },
        QuestID::CraftAxe => Quest {
            id: QuestID::CraftAxe,
            dependencies: vec![QuestID::OldCivilization],
            condition: QuestCondition { event: EventTypeID::CraftItem(Item::StoneAxe), count: 1 },
            reward_xp: 20,
            reward_items: vec![(Item::SolarPanel, 1)],
            unlocks_on_accept: vec![Unlocked::Experiment],
            unlocks_on_complete: vec![Unlocked::Craft, Unlocked::Disassemble],
        },
        QuestID::StockUp => Quest {
            id: QuestID::StockUp,
            dependencies: vec![QuestID::CraftAxe],
            condition: QuestCondition { event: EventTypeID::Hunt, count: 5 },
            reward_xp: 30,
            reward_items: vec![(Item::Microcontroller, 1)],
            unlocks_on_accept: vec![],
            unlocks_on_complete: vec![],
        },
    };
    assert(r@.dependencies =~= quest_spec(id).dependencies);
    assert(r@.reward_items =~= quest_spec(id).reward_items);
    assert(r@.unlocks_on_accept =~= quest_spec(id).unlocks_on_accept);
    assert(r@.unlocks_on_complete =~= quest_spec(id).unlocks_on_complete);
    r
}

/// Every quest, in table order.
pub fn quests() -> (r: Vec<Quest>)
    ensures
        r@.len() == quest_order().len(),
        forall|i: int| 0 <= i < r@.len() ==> #[trigger] r@[i]@ == quest_spec(quest_order()[i]),
{
    let mut r: Vec<Quest> = Vec::new();
    r.push(quest_for(QuestID::ExploreRuins));
    r.push(quest_for(QuestID::OldCivilization));
    r.push(quest_for(QuestID::CraftAxe));
    r.push(quest_for(QuestID::StockUp));
    r
}

/// Whether every quest in `quest.dependencies` is in `completed`.
pub open spec fn deps_met(deps: Seq<QuestID>, completed: Seq<QuestID>) -> bool {
    forall|i: int| 0 <= i < deps.len() ==> completed.contains(#[trigger] deps[i])
}

fn contains_id(ids: &[QuestID], id: QuestID) -> (r: bool)
    ensures
        r == ids@.contains(id),
{
    let mut i: usize = 0;
    while i < ids.len()
        invariant
            i <= ids@.len(),
            forall|j: int| 0 <= j < i ==> ids@[j] != id,
        decreases ids.len() - i,
    {
        if ids[i] == id {
            return true;
        }
        i = i + 1;
    }
    false
}

/// Whether every quest in `quest.dependencies` is in `completed`.
pub fn dependencies_met(quest: &Quest, completed: &[QuestID]) -> (r: bool)
    ensures
        r == deps_met(quest.dependencies@, completed@),
{
    let mut i: usize = 0;
    while i < quest.dependencies.len()
        invariant
            i <= quest.dependencies@.len(),
            forall|j: int| 0 <= j < i ==> completed@.contains(#[trigger] quest.dependencies@[j]),
        decreases quest.dependencies.len() - i,
    {
        if !contains_id(completed, quest.dependencies[i]) {
            return false;
        }
        i = i + 1;
    }
    true
}

/// Whether `id` occurs in `ids`.
pub fn contains_quest(ids: &[QuestID], id: QuestID) -> (r: bool)
    ensures
        r == ids@.contains(id),
{
    contains_id(ids, id)
}

} // verus!
