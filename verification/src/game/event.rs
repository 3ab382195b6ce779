//! The event log: what happened, described structurally; wording lives in
//! the front end.

use vstd::prelude::*;
use std::time::Duration;
use super::item::Item;
use super::map::FoundIn;
use super::quest::QuestID;
use super::clock::{duration_from_millis, millis_span, span_millis};
use crate::seqs::copy_vec;

verus! {

/// What happened. One variant per kind of log line.
#[derive(Clone, Debug, PartialEq)]
pub enum EventKind {
    /// The game's opening event.
    Awoke,
    /// Found `item` while searching a tile; `source` says whether it came from
    /// the terrain or the tile's POI.
    Found { item: Item, source: FoundIn },
    /// Accepted `quest` as the open quest.
    QuestAccepted { quest: QuestID },
    /// Completed the open quest.
    QuestCompleted { quest: QuestID },
    /// Tried to craft a recipe by a name the player doesn't know.
    UnknownRecipe { recipe: String },
    /// Knew the recipe for `output` but didn't have enough `needed`.
    CraftShortage { needed: Item, output: Item },
    /// Knew the recipe for `output` (or matched it while experimenting) but
    /// wasn't holding the required `tool`.
    CraftMissingTool { tool: Item, output: Item },
    /// Successfully crafted `output`.
    Crafted { output: Item },
    /// Tried to experiment with `items` but didn't have enough of `missing`.
    ExperimentShortage { items: Vec<(Item, u32)>, missing: Item, available: u32, needed: u32 },
    /// Experimented with `items`; no recipe matched.
    ExperimentFailed { items: Vec<(Item, u32)> },
    /// Experimented with `items`, which matched a recipe whose tool wasn't
    /// held; names neither the tool nor the output.
    ExperimentMissingTool { items: Vec<(Item, u32)> },
    /// Experimented with `items` and produced `output`; `newly_learned` is set
    /// the first time the recipe is discovered.
    Experimented { items: Vec<(Item, u32)>, output: Item, newly_learned: bool },
    /// Took `item` apart, recovering its recipe's consumables.
    Disassembled { item: Item },
    /// Came back from a hunt with `items` (one of each).
    Hunted { items: Vec<(Item, u32)> },
    /// Loosed an arrow on a hunt but brought nothing back.
    HuntMissed,
    /// Tried to hunt without the gear: `missing` is the Wooden Bow or an Arrow.
    HuntUnprepared { missing: Item },
    /// Found or caught `item`, but the bag was too full to carry it.
    BagFull { item: Item },
    /// Dropped one unit of `item`, from the bag or from storage.
    Dropped { item: Item },
}

/// What happened, with lists and names as sequences.
pub enum EventView {
    Awoke,
    Found { item: Item, source: FoundIn },
    QuestAccepted { quest: QuestID },
    QuestCompleted { quest: QuestID },
    UnknownRecipe { recipe: Seq<char> },
    CraftShortage { needed: Item, output: Item },
    CraftMissingTool { tool: Item, output: Item },
    Crafted { output: Item },
    ExperimentShortage { items: Seq<(Item, u32)>, missing: Item, available: u32, needed: u32 },
    ExperimentFailed { items: Seq<(Item, u32)> },
    ExperimentMissingTool { items: Seq<(Item, u32)> },
    Experimented { items: Seq<(Item, u32)>, output: Item, newly_learned: bool },
    Disassembled { item: Item },
    Hunted { items: Seq<(Item, u32)> },
    HuntMissed,
    HuntUnprepared { missing: Item },
    BagFull { item: Item },
    Dropped { item: Item },
}

impl View for EventKind {
    type V = EventView;

    open spec fn view(&self) -> EventView {
        match self {
            EventKind::Awoke => EventView::Awoke,
            EventKind::Found { item, source } => EventView::Found { item: *item, source: *source },
            EventKind::QuestAccepted { quest } => EventView::QuestAccepted { quest: *quest },
            EventKind::QuestCompleted { quest } => EventView::QuestCompleted { quest: *quest },
            EventKind::UnknownRecipe { recipe } => EventView::UnknownRecipe { recipe: recipe@ },
            EventKind::CraftShortage { needed, output } => EventView::CraftShortage { needed: *needed, output: *output },
            EventKind::CraftMissingTool { tool, output } => EventView::CraftMissingTool { tool: *tool, output: *output },
            EventKind::Crafted { output } => EventView::Crafted { output: *output },
            EventKind::ExperimentShortage { items, missing, available, needed } => EventView::ExperimentShortage {
                items: items@,
                missing: *missing,
                available: *available,
                needed: *needed,
            },
            EventKind::ExperimentFailed { items } => EventView::ExperimentFailed { items: items@ },
            EventKind::ExperimentMissingTool { items } => EventView::ExperimentMissingTool { items: items@ },
            EventKind::Experimented { items, output, newly_learned } => EventView::Experimented {
                items: items@,
                output: *output,
                newly_learned: *newly_learned,
            },
            EventKind::Disassembled { item } => EventView::Disassembled { item: *item },
            EventKind::Hunted { items } => EventView::Hunted { items: items@ },
            EventKind::HuntMissed => EventView::HuntMissed,
            EventKind::HuntUnprepared { missing } => EventView::HuntUnprepared { missing: *missing },
            EventKind::BagFull { item } => EventView::BagFull { item: *item },
            EventKind::Dropped { item } => EventView::Dropped { item: *item },
        }
    }
}

impl EventKind {
    /// A copy of this event kind.
    pub fn duplicate(&self) -> (r: EventKind)
        ensures
            r@ == self@,
    {
        match self {
            EventKind::Awoke => EventKind::Awoke,
            EventKind::Found { item, source } => EventKind::Found { item: *item, source: *source },
            EventKind::QuestAccepted { quest } => EventKind::QuestAccepted { quest: *quest },
            EventKind::QuestCompleted { quest } => EventKind::QuestCompleted { quest: *quest },
            EventKind::UnknownRecipe { recipe } => EventKind::UnknownRecipe { recipe: recipe.clone() },
            EventKind::CraftShortage { needed, output } => EventKind::CraftShortage { needed: *needed, output: *output },
            EventKind::CraftMissingTool { tool, output } => EventKind::CraftMissingTool { tool: *tool, output: *output },
            EventKind::Crafted { output } => EventKind::Crafted { output: *output },
            EventKind::ExperimentShortage { items, missing, available, needed } => EventKind::ExperimentShortage {
                items: copy_vec(items),
                missing: *missing,
                available: *available,
                needed: *needed,
            },
            EventKind::ExperimentFailed { items } => EventKind::ExperimentFailed { items: copy_vec(items) },
            EventKind::ExperimentMissingTool { items } => EventKind::ExperimentMissingTool { items: copy_vec(items) },
            EventKind::Experimented { items, output, newly_learned } => EventKind::Experimented {
                items: copy_vec(items),
                output: *output,
                newly_learned: *newly_learned,
            },
            EventKind::Disassembled { item } => EventKind::Disassembled { item: *item },
            EventKind::Hunted { items } => EventKind::Hunted { items: copy_vec(items) },
            EventKind::HuntMissed => EventKind::HuntMissed,
            EventKind::HuntUnprepared { missing } => EventKind::HuntUnprepared { missing: *missing },
            EventKind::BagFull { item } => EventKind::BagFull { item: *item },
            EventKind::Dropped { item } => EventKind::Dropped { item: *item },
        }
    }
}

/// One entry in the event log: what happened, and how far into the session
/// it happened, in milliseconds.
#[derive(Debug)]
pub struct Event {
    pub kind: EventKind,
    pub elapsed_ms: u64,
}

impl Event {
    /// The kind of the event.
    pub open spec fn spec_kind(&self) -> EventKind {
        self.kind
    }

    /// The session time of the event, in milliseconds.
    pub open spec fn spec_elapsed_ms(&self) -> u64 {
        self.elapsed_ms
    }

    pub fn new(kind: EventKind, elapsed_ms: u64) -> (r: Event)
        ensures
            r.spec_kind() == kind,
            r.spec_elapsed_ms() == elapsed_ms,
    {
        Event { kind, elapsed_ms }
    }

    pub fn kind(&self) -> (r: &EventKind)
        ensures
            *r == self.spec_kind(),
    {
        &self.kind
    }

    /// Time from the start of the session to when this event was logged, in
    /// milliseconds.
    pub fn elapsed_millis(&self) -> (r: u64)
        ensures
            r == self.spec_elapsed_ms(),
    {
        self.elapsed_ms
    }

    /// Time from the start of the session to when this event was logged.
    pub fn elapsed(&self) -> (r: Duration)
        ensures
            r == millis_span(self.spec_elapsed_ms()),
            span_millis(r) == self.spec_elapsed_ms(),
    {
        duration_from_millis(self.elapsed_ms)
    }
}

/// `after` is `before` with events of the given kinds appended, each no
/// earlier than anything already logged and than the ones before it.
pub open spec fn logged(before: Seq<Event>, after: Seq<Event>, kinds: Seq<EventView>) -> bool {
    &&& after.len() == before.len() + kinds.len()
    &&& after.subrange(0, before.len() as int) == before
    &&& forall|i: int| 0 <= i < kinds.len() ==> (#[trigger] after[before.len() + i]).kind@ == kinds[i]
    &&& forall|i: int, j: int| 0 <= i < j < after.len() && j >= before.len()
        ==> (#[trigger] after[i]).elapsed_ms <= (#[trigger] after[j]).elapsed_ms
}

/// The events of `log` are in order of when they happened.
pub open spec fn in_order(log: Seq<Event>) -> bool {
    forall|i: int, j: int| 0 <= i < j < log.len() ==> (#[trigger] log[i]).elapsed_ms <= (#[trigger] log[j]).elapsed_ms
}

/// An ordered log stays ordered whatever a game action appends: every
/// event is logged no earlier than any before it.
pub broadcast proof fn lemma_log_stays_ordered(before: Seq<Event>, after: Seq<Event>, kinds: Seq<EventView>)
    requires
        #[trigger] logged(before, after, kinds),
    ensures
        in_order(before) ==> in_order(after),
{
    if in_order(before) {
    assert forall|i: int, j: int| 0 <= i < j < after.len() implies (#[trigger] after[i]).elapsed_ms <= (#[trigger] after[j]).elapsed_ms by {
        if j < before.len() {
            assert(after[i] == after.subrange(0, before.len() as int)[i]);
            assert(after[j] == after.subrange(0, before.len() as int)[j]);
        }
    }
    }
}

} // verus!
