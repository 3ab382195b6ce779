//! The game's domain model: the player, the map, quests and recipes, and the
//! game itself, which ties them together and keeps the event log.

pub mod item;
pub mod unlock;
pub mod recipe;
pub mod map;
pub mod quest;
pub mod clock;
pub mod event;
pub mod counts;
pub mod player;
pub mod random;
pub mod growth;

pub use item::Item;
pub use unlock::Unlocked;
pub use recipe::{Recipe, RecipeFlow, RecipeView, recipes, disassembly_for};
pub use map::{Direction, FoundIn, Poi, TerrainType, MapTile, GameMap};
pub use quest::{Quest, QuestError, QuestID};
pub use event::{Event, EventKind, EventView, logged, in_order};
pub use counts::ItemCounts;
pub use player::Player;

use vstd::prelude::*;
use std::time::{Duration, Instant};
use self::quest::{EventTypeID, quest_spec, quest_for, quests, quest_order, deps_met, dependencies_met, contains_quest};
use self::player::{add_all_map, draw_all, short_at, needed_of, first_short_from,
    lemma_first_short_at, lemma_first_short_none, storage_after_draw, bag_after_draw, names_of, BAG_CAPACITY};
use self::recipe::{recipe_book, find_matching, first_in_book, matches_items, takes_apart};
use crate::seqs::{first_where, lemma_first_where_at, lemma_first_where_none, copy_slice};
use self::counts::{add_map, spend_map, count_in, view_total, lemma_total_add, lemma_count_le_total};
use self::map::direction_delta;
use self::clock::{instant_now, elapsed_since, duration_millis, instant_checked_sub, duration_from_millis, millis_span, span_millis};

verus! {

/// The quest-related state of a player: open quest, progress, completed
/// quests, experience and storage.
pub open spec fn track_of(p: &Player) -> (Option<QuestID>, u32, Seq<QuestID>, int, Map<Item, u32>) {
    (p.open_quest, p.quest_progress, p.spec_completed(), p.experience as int, p.inventory@)
}

/// Whether `e` is what the open quest of `t` counts.
pub open spec fn fires(t: (Option<QuestID>, u32, Seq<QuestID>, int, Map<Item, u32>), e: EventTypeID) -> bool {
    t.0.is_some() && quest_spec(t.0.unwrap()).condition.event == e
}

/// Whether `e` completes the open quest of `t`.
pub open spec fn completes(t: (Option<QuestID>, u32, Seq<QuestID>, int, Map<Item, u32>), e: EventTypeID) -> bool {
    fires(t, e) && t.1 + 1 >= quest_spec(t.0.unwrap()).condition.count
}

/// The quest state after `e` is noted: it counts toward the open quest if
/// it is that quest's event, and the quest completes, with its reward, once
/// the count is reached.
pub open spec fn note_track(t: (Option<QuestID>, u32, Seq<QuestID>, int, Map<Item, u32>), e: EventTypeID)
    -> (Option<QuestID>, u32, Seq<QuestID>, int, Map<Item, u32>)
{
    if !fires(t, e) {
        t
    } else if completes(t, e) {
        let q = quest_spec(t.0.unwrap());
        (None, 0, t.2.push(q.id), t.3 + q.reward_xp, add_all_map(t.4, q.reward_items))
    } else {
        (t.0, (t.1 + 1) as u32, t.2, t.3, t.4)
    }
}

/// The quest state `t` is one a game can be in: no quest is completed
/// twice; with no quest open the progress is zero; an open quest is not
/// completed, has its dependencies completed, and its progress is short of
/// its goal.
pub open spec fn track_sound(t: (Option<QuestID>, u32, Seq<QuestID>, int, Map<Item, u32>)) -> bool {
    &&& t.2.no_duplicates()
    &&& match t.0 {
        None => t.1 == 0,
        Some(id) => {
            &&& t.1 < quest_spec(id).condition.count
            &&& !t.2.contains(id)
            &&& deps_met(quest_spec(id).dependencies, t.2)
        },
    }
}

/// The player's quest state is one a game can be in.
pub open spec fn quests_sound(p: &Player) -> bool {
    track_sound(track_of(p))
}

/// Noting an event keeps the quest state sound.
pub proof fn lemma_note_keeps_quests_sound(t: (Option<QuestID>, u32, Seq<QuestID>, int, Map<Item, u32>), e: EventTypeID)
    requires
        track_sound(t),
    ensures
        track_sound(note_track(t, e)),
{
    if fires(t, e) && completes(t, e) {
        let id = t.0.unwrap();
        assert forall|i: int, j: int| 0 <= i < t.2.push(id).len() && 0 <= j < t.2.push(id).len() && i != j
            implies t.2.push(id)[i] != t.2.push(id)[j] by {
            if i == t.2.len() {
                assert(t.2[j] == t.2.push(id)[j]);
            } else if j == t.2.len() {
                assert(t.2[i] == t.2.push(id)[i]);
            }
        }
    }
}

/// The log lines noting `e` adds: the quest's completion, if it completes.
pub open spec fn note_log(t: (Option<QuestID>, u32, Seq<QuestID>, int, Map<Item, u32>), e: EventTypeID) -> Seq<EventView> {
    if completes(t, e) {
        seq![EventView::QuestCompleted { quest: t.0.unwrap() }]
    } else {
        seq![]
    }
}

/// Everything about `a` but its quest state is as in `b`.
pub open spec fn same_but_quests(a: &Player, b: &Player) -> bool {
    &&& a.level == b.level
    &&& a.crafts_completed == b.crafts_completed
    &&& a.coordinates == b.coordinates
    &&& a.bag@ == b.bag@
    &&& a.spec_recipes() == b.spec_recipes()
}


broadcast use self::event::lemma_log_stays_ordered;

proof fn lemma_logged_trans(a: Seq<Event>, b: Seq<Event>, c: Seq<Event>, k1: Seq<EventView>, k2: Seq<EventView>)
    requires
        logged(a, b, k1),
        logged(b, c, k2),
    ensures
        logged(a, c, k1 + k2),
{
    assert(c.subrange(0, a.len() as int) =~= a) by {
        assert forall|i: int| 0 <= i < a.len() implies c[i] == a[i] by {
            assert(c[i] == c.subrange(0, b.len() as int)[i]);
            assert(b[i] == b.subrange(0, a.len() as int)[i]);
        }
    }
    assert forall|i: int| 0 <= i < (k1 + k2).len() implies (#[trigger] c[a.len() + i]).kind@ == (k1 + k2)[i] by {
        if i < k1.len() {
            assert(c[a.len() + i] == c.subrange(0, b.len() as int)[a.len() + i]);
            assert(b[a.len() + i].kind@ == k1[i]);
        } else {
            assert(c[b.len() + (i - k1.len())].kind@ == k2[i - k1.len()]);
        }
    }
    assert forall|i: int, j: int| 0 <= i < j < c.len() && j >= a.len()
        implies (#[trigger] c[i]).elapsed_ms <= (#[trigger] c[j]).elapsed_ms by {
        if j < b.len() {
            assert(c[i] == c.subrange(0, b.len() as int)[i]);
            assert(c[j] == c.subrange(0, b.len() as int)[j]);
            assert(b[i].elapsed_ms <= b[j].elapsed_ms);
        }
    }
}

proof fn lemma_logged_none(a: Seq<Event>)
    ensures
        logged(a, a, seq![]),
{
    assert(a.subrange(0, a.len() as int) =~= a);
}

/// The bag holds no more than its capacity, every kind of item counted.
pub open spec fn bag_fits(p: &Player) -> bool {
    p.bag.spec_total() <= BAG_CAPACITY
}

/// The latest of `floor` and the times of `events`.
pub open spec fn latest_time(events: Seq<Event>, floor: u64) -> u64
    decreases events.len(),
{
    if events.len() == 0 {
        floor
    } else {
        let before = latest_time(events.drop_last(), floor);
        if events.last().elapsed_ms > before { events.last().elapsed_ms } else { before }
    }
}

/// The whole game: the player, the map, and the log of what happened.
#[derive(Debug)]
pub struct Game {
    pub player: Player,
    pub map: GameMap,
    /// The event log, oldest first.
    pub events: Vec<Event>,
    /// When the session started, by the machine's monotonic clock.
    pub started: Instant,
    /// The latest time logged so far, in milliseconds into the session.
    pub latest_ms: u64,
}

impl Game {
    /// The event log, oldest first.
    pub open spec fn spec_log(&self) -> Seq<Event> {
        self.events@
    }

    /// Every logged event is at most `latest_ms` into the session, so a new
    /// event can always be stamped no earlier than any before it.
    pub open spec fn wf(&self) -> bool {
        forall|i: int| 0 <= i < self.events@.len() ==> (#[trigger] self.events@[i]).elapsed_ms <= self.latest_ms
    }

    /// Whether the player stands on the Village.
    pub open spec fn at_village(&self) -> bool {
        match self.map.tile_index(self.player.coordinates) {
            Some((x, y)) => self.map.tile_at(x, y).poi == Some(Poi::Village),
            None => false,
        }
    }

    /// A new game: the default player at the village of a fresh map, and a
    /// log holding the awakening.
    pub fn new() -> (r: Game)
        ensures
            r.wf(),
            r.player.is_fresh(),
            quests_sound(&r.player),
            in_order(r.spec_log()),
            r.map.is_full_grid(),
            r.map.half == 25,
            r.at_village(),
            r.spec_log().len() == 1,
            r.spec_log()[0].kind@ == EventView::Awoke,
            r.spec_log()[0].elapsed_ms == 0,
            r.latest_ms == 0,
    {
        let player = Player::default();
        let map = GameMap::new();
        let mut events: Vec<Event> = Vec::new();
        events.push(Event::new(EventKind::Awoke, 0));
        let r = Game { player, map, events, started: instant_now(), latest_ms: 0 };
        assert(r.map.tile_index((0i32, 0i32)) == Some((25int, 25int)));
        r
    }

    /// Rebuilds a game from saved parts. The game time is the saved
    /// `elapsed_ms`, or the latest saved event's time should that be later;
    /// the session clock is set back by it, so that events logged after the
    /// load come after the restored ones.
    pub fn from_saved(player: Player, map: GameMap, events: Vec<Event>, elapsed_ms: u64) -> (r: Game)
        ensures
            r.wf(),
            r.player == player,
            r.map == map,
            r.spec_log() == events@,
            r.latest_ms == latest_time(events@, elapsed_ms),
    {
        let mut latest: u64 = elapsed_ms;
        let mut i: usize = 0;
        while i < events.len()
            invariant
                i <= events@.len(),
                latest == latest_time(events@.take(i as int), elapsed_ms),
                forall|k: int| 0 <= k < i ==> (#[trigger] events@[k]).elapsed_ms <= latest,
            decreases events.len() - i,
        {
            assert(events@.take(i + 1).drop_last() =~= events@.take(i as int));
            if events[i].elapsed_millis() > latest {
                latest = events[i].elapsed_millis();
            }
            i = i + 1;
        }
        assert(events@.take(events@.len() as int) =~= events@);
        let now = instant_now();
        let started = match instant_checked_sub(&now, duration_from_millis(latest)) {
            Some(t) => t,
            None => instant_now(),
        };
        Game { player, map, events, started, latest_ms: latest }
    }

    /// How far into the session the game is, in milliseconds: the time on
    /// the session clock, and never less than the latest time logged.
    pub fn elapsed_ms(&self) -> (r: u64)
        ensures
            r >= self.latest_ms,
    {
        let ms = duration_millis(&elapsed_since(&self.started));
        if ms > self.latest_ms { ms } else { self.latest_ms }
    }

    /// How far into the session the game is.
    pub fn elapsed(&self) -> (r: Duration)
        ensures
            exists|ms: u64| ms >= self.latest_ms && r == millis_span(ms) && span_millis(r) == ms,
    {
        duration_from_millis(self.elapsed_ms())
    }

    /// The event log, oldest first.
    pub fn events(&self) -> (r: &Vec<Event>)
        ensures
            r@ == self.spec_log(),
    {
        &self.events
    }

    /// Appends an event, stamped with the session time, or with the latest
    /// time already logged should the clock read earlier.
    fn log(&mut self, kind: EventKind)
        requires
            old(self).wf(),
        ensures
            final(self).wf(),
            logged(old(self).spec_log(), final(self).spec_log(), seq![kind@]),
            final(self).player == old(self).player,
            final(self).map == old(self).map,
    {
        let d = elapsed_since(&self.started);
        let ms = duration_millis(&d);
        let at = if ms > self.latest_ms { ms } else { self.latest_ms };
        let ghost before = self.events@;
        self.events.push(Event::new(kind, at));
        self.latest_ms = at;
        assert(self.events@.subrange(0, before.len() as int) =~= before);
        assert(self.events@[before.len() as int + 0].kind@ == seq![kind@][0]);
    }

    /// Routes a game action to the open quest: counts it if it is the
    /// quest's event, and completes the quest, with its reward, once the
    /// count is reached.
    fn note_quest_event(&mut self, e: EventTypeID)
        requires
            old(self).wf(),
            note_room(&old(self).player, e),
        ensures
            final(self).wf(),
            track_of(&final(self).player) == note_track(track_of(&old(self).player), e),
            same_but_quests(&final(self).player, &old(self).player),
            logged(old(self).spec_log(), final(self).spec_log(), note_log(track_of(&old(self).player), e)),
            final(self).map == old(self).map,
            quests_sound(&old(self).player) ==> quests_sound(&final(self).player),
    {
        let ghost t0 = track_of(&self.player);
        proof {
            if track_sound(t0) {
                lemma_note_keeps_quests_sound(t0, e);
            }
        }
        proof {
            lemma_logged_none(self.spec_log());
        }
        match self.player.open_quest() {
            None => {},
            Some(qid) => {
                let quest = quest_for(qid);
                if quest.condition.matches(e) {
                    let progress = self.player.advance_quest_progress();
                    if quest.condition.is_satisfied_by(progress) {
                        proof {
                            assert(completes(t0, e));
                            assert(quest.reward_items@ == quest_spec(qid).reward_items);
                            assert forall|i: Item| #[trigger] self.player.inventory.count_of(i) + needed_of(quest.reward_items@, i) <= u32::MAX by {
                                assert(count_in(old(self).player.inventory@, i) + needed_of(quest_spec(qid).reward_items, i) <= u32::MAX);
                            }
                        }
                        self.complete_open_quest(&quest);
                    }
                }
            },
        }
    }

    /// Completes `quest`: moves it into the completed quests, clears the
    /// open quest and its progress, grants its reward (experience, and items
    /// into storage), and logs the completion.
    pub fn complete_open_quest(&mut self, quest: &Quest)
        requires
            old(self).wf(),
            old(self).player.experience + quest.reward_xp <= u32::MAX,
            forall|i: Item| #[trigger] old(self).player.inventory.count_of(i) + needed_of(quest.reward_items@, i) <= u32::MAX,
        ensures
            final(self).wf(),
            final(self).player.open_quest == None::<QuestID>,
            final(self).player.quest_progress == 0,
            final(self).player.spec_completed() == old(self).player.spec_completed().push(quest.id),
            final(self).player.experience == old(self).player.experience + quest.reward_xp,
            final(self).player.inventory@ == add_all_map(old(self).player.inventory@, quest.reward_items@),
            same_but_quests(&final(self).player, &old(self).player),
            logged(old(self).spec_log(), final(self).spec_log(), seq![EventView::QuestCompleted { quest: quest.id }]),
            final(self).map == old(self).map,
            quests_sound(&old(self).player) && old(self).player.open_quest == Some(quest.id) ==> quests_sound(&final(self).player),
            in_order(old(self).spec_log()) ==> in_order(final(self).spec_log()),
    {
        self.player.complete_quest(quest.id);
        assert forall|i: Item| #[trigger] self.player.inventory.count_of(i) + needed_of(quest.reward_items@, i) <= u32::MAX by {
            assert(old(self).player.inventory.count_of(i) + needed_of(quest.reward_items@, i) <= u32::MAX);
        }
        self.player.grant_reward(quest.reward_xp, &quest.reward_items);
        self.log(EventKind::QuestCompleted { quest: quest.id });
    }

    /// Accepts `id` as the open quest. Fails if another quest is already
    /// open, `id` was already completed, or its dependencies aren't all
    /// completed yet, checked in that order; a failure changes nothing.
    pub fn accept_quest(&mut self, id: QuestID) -> (r: Result<(), QuestError>)
        requires
            old(self).wf(),
        ensures
            final(self).wf(),
            r == if old(self).player.open_quest.is_some() {
                Err(QuestError::AnotherQuestActive)
            } else if old(self).player.spec_completed().contains(id) {
                Err(QuestError::AlreadyCompleted)
            } else if !deps_met(quest_spec(id).dependencies, old(self).player.spec_completed()) {
                Err(QuestError::DependenciesNotMet)
            } else {
                Ok(())
            },
            r is Err ==> final(self).player == old(self).player && final(self).spec_log() == old(self).spec_log(),
            r is Ok ==> {
                &&& final(self).player.open_quest == Some(id)
                &&& final(self).player.quest_progress == 0
                &&& final(self).player.spec_completed() == old(self).player.spec_completed()
                &&& final(self).player.experience == old(self).player.experience
                &&& final(self).player.inventory@ == old(self).player.inventory@
                &&& same_but_quests(&final(self).player, &old(self).player)
                &&& logged(old(self).spec_log(), final(self).spec_log(), seq![EventView::QuestAccepted { quest: id }])
            },
            final(self).map == old(self).map,
            quests_sound(&old(self).player) ==> quests_sound(&final(self).player),
            in_order(old(self).spec_log()) ==> in_order(final(self).spec_log()),
    {
        if self.player.open_quest().is_some() {
            return Err(QuestError::AnotherQuestActive);
        }
        if contains_quest(self.player.completed_quests().as_slice(), id) {
            return Err(QuestError::AlreadyCompleted);
        }
        let quest = quest_for(id);
        if !dependencies_met(&quest, self.player.completed_quests().as_slice()) {
            return Err(QuestError::DependenciesNotMet);
        }
        self.player.open_quest_as(id);
        self.log(EventKind::QuestAccepted { quest: id });
        Ok(())
    }

    /// Quests not currently open, not yet completed, whose dependencies are
    /// all completed, in table order.
    pub fn available_quests(&self) -> (r: Vec<Quest>)
        ensures
            r@.map_values(|q: Quest| q@) == quest_order().filter(|id: QuestID| available(&self.player, id)).map_values(|id: QuestID| quest_spec(id)),
    {
        let all = quests();
        let mut r: Vec<Quest> = Vec::new();
        let mut i: usize = 0;
        while i < all.len()
            invariant
                i <= all@.len(),
                all@.len() == quest_order().len(),
                forall|k: int| 0 <= k < all@.len() ==> #[trigger] all@[k]@ == quest_spec(quest_order()[k]),
                r@.map_values(|q: Quest| q@) == quest_order().subrange(0, i as int).filter(|id: QuestID| available(&self.player, id))
                    .map_values(|id: QuestID| quest_spec(id)),
            decreases all.len() - i,
        {
            let q = &all[i];
            let ghost before = r@;
            proof {
                assert(quest_order().subrange(0, i as int + 1).drop_last() =~= quest_order().subrange(0, i as int));
                assert(q@.id == quest_order()[i as int]) by {
                    reveal_with_fuel(quest_spec, 1);
                }
            }
            let open_here = match self.player.open_quest() {
                Some(o) => o == q.id,
                None => false,
            };
            if !open_here && !contains_quest(self.player.completed_quests().as_slice(), q.id)
                && dependencies_met(q, self.player.completed_quests().as_slice()) {
                r.push(q.clone());
                proof {
                    assert(r@.map_values(|x: Quest| x@) =~= before.map_values(|x: Quest| x@).push(q@));
                }
            }
            proof {
                let s = quest_order().subrange(0, i as int + 1);
                assert(s.filter(|id: QuestID| available(&self.player, id)) == if available(&self.player, s.last()) {
                    s.drop_last().filter(|id: QuestID| available(&self.player, id)).push(s.last())
                } else {
                    s.drop_last().filter(|id: QuestID| available(&self.player, id))
                }) by {
                    reveal_with_fuel(Seq::filter, 1);
                }
            }
            i = i + 1;
        }
        assert(quest_order().subrange(0, all@.len() as int) =~= quest_order());
        r
    }

    /// Looks up a quest by id.
    pub fn quest(&self, id: QuestID) -> (r: Quest)
        ensures
            r@ == quest_spec(id),
    {
        quest_for(id)
    }

    /// `(quests completed, quests that exist)`.
    pub fn quest_progress(&self) -> (r: (usize, usize))
        ensures
            r.0 == self.player.spec_completed().len(),
            r.1 == quest_order().len(),
    {
        (self.player.completed_quests().len(), quests().len())
    }

    /// Whether the player is somewhere crafting, experimenting and
    /// disassembling are allowed: the Village.
    pub fn at_craftable_location(&self) -> (r: bool)
        ensures
            r == self.at_village(),
    {
        match self.map.get_tile(self.player.coordinates) {
            Some(tile) => match tile.poi {
                Some(Poi::Village) => true,
                _ => false,
            },
            None => false,
        }
    }
}

/// One step from `c` in direction `dir`.
pub open spec fn step(c: (i32, i32), dir: Direction) -> (i32, i32) {
    ((c.0 + direction_delta(dir).0) as i32, (c.1 + direction_delta(dir).1) as i32)
}

/// The bag and the log lines after keeping each of `found` in turn: an item
/// goes in while the bag has room (logged as found), and is lost otherwise
/// (logged as the bag being full).
pub open spec fn keep_found_outcome(bag: Map<Item, u32>, found: Seq<(Item, FoundIn)>) -> (Map<Item, u32>, Seq<EventView>)
    decreases found.len(),
{
    if found.len() == 0 {
        (bag, seq![])
    } else {
        let (b, k) = keep_found_outcome(bag, found.drop_last());
        let (item, source) = found.last();
        if view_total(b) + 1 <= BAG_CAPACITY {
            (add_map(b, item, 1), k.push(EventView::Found { item, source }))
        } else {
            (b, k.push(EventView::BagFull { item }))
        }
    }
}

/// The bag, the log lines for what didn't fit, and what was kept, after a
/// hunt brings back `catch`: each item goes in while the bag has room.
pub open spec fn keep_catch_outcome(bag: Map<Item, u32>, catch: Seq<Item>) -> (Map<Item, u32>, Seq<EventView>, Seq<Item>)
    decreases catch.len(),
{
    if catch.len() == 0 {
        (bag, seq![], seq![])
    } else {
        let (b, k, g) = keep_catch_outcome(bag, catch.drop_last());
        let item = catch.last();
        if view_total(b) + 1 <= BAG_CAPACITY {
            (add_map(b, item, 1), k, g.push(item))
        } else {
            (b, k.push(EventView::BagFull { item }), g)
        }
    }
}

/// Keeping finds never fills the bag past its capacity.
proof fn lemma_keep_found_fits(bag: Map<Item, u32>, found: Seq<(Item, FoundIn)>)
    requires
        view_total(bag) <= BAG_CAPACITY,
    ensures
        view_total(keep_found_outcome(bag, found).0) <= BAG_CAPACITY,
    decreases found.len(),
{
    if found.len() > 0 {
        lemma_keep_found_fits(bag, found.drop_last());
        let b = keep_found_outcome(bag, found.drop_last()).0;
        if view_total(b) + 1 <= BAG_CAPACITY {
            lemma_count_le_total(b, found.last().0);
            lemma_total_add(b, found.last().0, 1);
        }
    }
}

/// Keeping a catch never fills the bag past its capacity.
proof fn lemma_keep_catch_fits(bag: Map<Item, u32>, catch: Seq<Item>)
    requires
        view_total(bag) <= BAG_CAPACITY,
    ensures
        view_total(keep_catch_outcome(bag, catch).0) <= BAG_CAPACITY,
    decreases catch.len(),
{
    if catch.len() > 0 {
        lemma_keep_catch_fits(bag, catch.drop_last());
        let b = keep_catch_outcome(bag, catch.drop_last()).0;
        if view_total(b) + 1 <= BAG_CAPACITY {
            lemma_count_le_total(b, catch.last());
            lemma_total_add(b, catch.last(), 1);
        }
    }
}

/// One of each item of `items`.
pub open spec fn one_each(items: Seq<Item>) -> Seq<(Item, u32)> {
    items.map_values(|i: Item| (i, 1u32))
}

/// Whether `id` is open to accept for `p`: not open, not completed, and
/// every dependency completed.
pub open spec fn available(p: &Player, id: QuestID) -> bool {
    p.open_quest != Some(id) && !p.spec_completed().contains(id) && deps_met(quest_spec(id).dependencies, p.spec_completed())
}


impl Game {
    /// Walks one step in `dir`. Off the map nothing happens; otherwise the
    /// player moves, and the terrain, then the POI if there is one, count
    /// toward the open quest. Walking is not logged.
    pub fn walk(&mut self, dir: Direction)
        requires
            old(self).wf(),
            match old(self).map.tile_index(step(old(self).player.coordinates, dir)) {
                Some((x, y)) => {
                    let tile = old(self).map.tile_at(x, y);
                    &&& note_room(&old(self).player, EventTypeID::VisitTerrain(tile.terrain_type))
                    &&& tile.poi is Some ==> note_room(&old(self).player, EventTypeID::VisitPoi(tile.poi.unwrap()))
                },
                None => true,
            },
            i32::MIN < old(self).player.coordinates.0 < i32::MAX,
            i32::MIN < old(self).player.coordinates.1 < i32::MAX,
        ensures
            bag_fits(&old(self).player) ==> bag_fits(&final(self).player),
            final(self).wf(),
            final(self).map == old(self).map,
            ({
                let next = step(old(self).player.coordinates, dir);
                match old(self).map.tile_index(next) {
                    None => final(self).player == old(self).player && final(self).spec_log() == old(self).spec_log(),
                    Some((x, y)) => {
                        let tile = old(self).map.tile_at(x, y);
                        let t0 = track_of(&old(self).player);
                        let t1 = note_track(t0, EventTypeID::VisitTerrain(tile.terrain_type));
                        let t2 = match tile.poi {
                            Some(p) => note_track(t1, EventTypeID::VisitPoi(p)),
                            None => t1,
                        };
                        let k2 = match tile.poi {
                            Some(p) => note_log(t1, EventTypeID::VisitPoi(p)),
                            None => seq![],
                        };
                        &&& final(self).player.coordinates == next
                        &&& track_of(&final(self).player) == t2
                        &&& final(self).player.level == old(self).player.level
                        &&& final(self).player.crafts_completed == old(self).player.crafts_completed
                        &&& final(self).player.bag@ == old(self).player.bag@
                        &&& final(self).player.spec_recipes() == old(self).player.spec_recipes()
                        &&& logged(old(self).spec_log(), final(self).spec_log(),
                            note_log(t0, EventTypeID::VisitTerrain(tile.terrain_type)) + k2)
                    },
                }
            }),
            quests_sound(&old(self).player) ==> quests_sound(&final(self).player),
            in_order(old(self).spec_log()) ==> in_order(final(self).spec_log()),
    {
        let next = self.player.coordinates_after(dir);
        if !self.map.contains(next) {
            return;
        }
        self.player.coordinates = next;
        let ghost moved = self.player;
        let ghost log0 = self.spec_log();
        match self.map.get_tile(next) {
            Some(tile) => {
                let terrain = tile.terrain_type;
                let poi = tile.poi;
                self.note_quest_event(EventTypeID::VisitTerrain(terrain));
                let ghost log1 = self.spec_log();
                let ghost t1 = track_of(&self.player);
                match poi {
                    Some(p) => {
                        proof {
                            lemma_note_room_after(track_of(&moved), EventTypeID::VisitTerrain(terrain), EventTypeID::VisitPoi(p));
                        }
                        self.note_quest_event(EventTypeID::VisitPoi(p));
                        proof {
                            lemma_logged_trans(log0, log1, self.spec_log(),
                                note_log(track_of(&moved), EventTypeID::VisitTerrain(terrain)),
                                note_log(t1, EventTypeID::VisitPoi(p)));
                        }
                    },
                    None => {
                        proof {
                            assert(note_log(track_of(&moved), EventTypeID::VisitTerrain(terrain)) + seq![]
                                =~= note_log(track_of(&moved), EventTypeID::VisitTerrain(terrain)));
                        }
                    },
                }
            },
            None => {},
        }
    }

    /// Keeps what a search turned up, in order: each item goes in the bag if
    /// there's room and is logged as found; one that doesn't fit is lost and
    /// logged as the bag being full.
    pub fn keep_found(&mut self, found: &Vec<(Item, FoundIn)>)
        requires
            old(self).wf(),
        ensures
            bag_fits(&old(self).player) ==> bag_fits(&final(self).player),
            final(self).wf(),
            final(self).player.bag@ == keep_found_outcome(old(self).player.bag@, found@).0,
            logged(old(self).spec_log(), final(self).spec_log(), keep_found_outcome(old(self).player.bag@, found@).1),
            final(self).player.inventory@ == old(self).player.inventory@,
            final(self).player.same_standing(&old(self).player),
            final(self).map == old(self).map,
            quests_sound(&old(self).player) ==> quests_sound(&final(self).player),
            in_order(old(self).spec_log()) ==> in_order(final(self).spec_log()),
    {
        let mut k: usize = 0;
        proof {
            lemma_logged_none(self.spec_log());
        }
        while k < found.len()
            invariant
                k <= found@.len(),
                self.wf(),
                self.player.bag@ == keep_found_outcome(old(self).player.bag@, found@.subrange(0, k as int)).0,
                logged(old(self).spec_log(), self.spec_log(), keep_found_outcome(old(self).player.bag@, found@.subrange(0, k as int)).1),
                self.player.inventory@ == old(self).player.inventory@,
                self.player.same_standing(&old(self).player),
                self.map == old(self).map,
            decreases found.len() - k,
        {
            let (item, source) = found[k];
            let ghost log0 = self.spec_log();
            proof {
                assert(found@.subrange(0, k as int + 1).drop_last() =~= found@.subrange(0, k as int));
            }
            if self.player.add_to_bag(item, 1) {
                self.log(EventKind::Found { item, source });
            } else {
                self.log(EventKind::BagFull { item });
            }
            proof {
                let prev = keep_found_outcome(old(self).player.bag@, found@.subrange(0, k as int)).1;
                let kind = if view_total(keep_found_outcome(old(self).player.bag@, found@.subrange(0, k as int)).0) + 1 <= BAG_CAPACITY {
                    EventView::Found { item, source }
                } else {
                    EventView::BagFull { item }
                };
                lemma_logged_trans(old(self).spec_log(), log0, self.spec_log(), prev, seq![kind]);
                assert(prev + seq![kind] =~= prev.push(kind));
            }
            k = k + 1;
        }
        assert(found@.subrange(0, found@.len() as int) =~= found@);
        proof {
            if bag_fits(&old(self).player) {
                lemma_keep_found_fits(old(self).player.bag@, found@);
            }
        }
    }

    /// Searches the player's tile: rolls its finds (see
    /// [`MapTile::roll_found_items`]) and keeps them (see
    /// [`keep_found`](Self::keep_found)), then stamps the tile as searched.
    /// Off the map nothing happens.
    pub fn search(&mut self)
        requires
            old(self).wf(),
        ensures
            bag_fits(&old(self).player) ==> bag_fits(&final(self).player),
            final(self).wf(),
            final(self).player.inventory@ == old(self).player.inventory@,
            final(self).player.same_standing(&old(self).player),
            match old(self).map.tile_index(old(self).player.coordinates) {
                None => final(self).player == old(self).player && final(self).spec_log() == old(self).spec_log()
                    && final(self).map == old(self).map,
                Some((x, y)) => {
                    let tile = old(self).map.tile_at(x, y);
                    &&& exists|rolls: Seq<u64>, elapsed: Option<u64>|
                        rolls.len() == tile.items@.len()
                        && (forall|i: int| 0 <= i < rolls.len() ==> #[trigger] rolls[i] < map::CERTAIN)
                        && (elapsed.is_none() <==> tile.last_search_time.is_none())
                        && map::measured_since(tile.last_search_time, elapsed)
                        && final(self).player.bag@ == keep_found_outcome(old(self).player.bag@, #[trigger] tile.finds_for(elapsed, rolls)).0
                        && logged(old(self).spec_log(), final(self).spec_log(),
                            keep_found_outcome(old(self).player.bag@, tile.finds_for(elapsed, rolls)).1)
                    &&& final(self).map.same_ground(&old(self).map)
                    &&& final(self).map.tile_at(x, y).last_search_time.is_some()
                    &&& final(self).map.tile_at(x, y).last_hunt_time == tile.last_hunt_time
                    &&& forall|a: int, b: int| !(a == x && b == y) && 0 <= b < old(self).map.tiles@.len() && 0 <= a < old(self).map.tiles@[b]@.len()
                        ==> #[trigger] final(self).map.tile_at(a, b) == old(self).map.tile_at(a, b)
                },
            },
            quests_sound(&old(self).player) ==> quests_sound(&final(self).player),
            in_order(old(self).spec_log()) ==> in_order(final(self).spec_log()),
    {
        let coords = self.player.coordinates;
        let found = match self.map.get_tile(coords) {
            None => {
                return;
            },
            Some(tile) => tile.roll_found_items(),
        };
        self.keep_found(&found);
        self.map.update_tile_last_search_time(coords);
    }
}


/// The log lines a hunt that brought back `catch` adds, with the quest state
/// `t` before it: a miss when nothing came back; otherwise the bag-full
/// lines, then the haul and its count toward the open quest when anything
/// was kept.
pub open spec fn catch_log(bag: Map<Item, u32>, catch: Seq<Item>, t: (Option<QuestID>, u32, Seq<QuestID>, int, Map<Item, u32>)) -> Seq<EventView> {
    let (b, k, g) = keep_catch_outcome(bag, catch);
    if catch.len() == 0 {
        seq![EventView::HuntMissed]
    } else if g.len() == 0 {
        k
    } else {
        k + seq![EventView::Hunted { items: one_each(g) }] + note_log(t, EventTypeID::Hunt)
    }
}

/// The quest state after a hunt that brought back `catch`: a hunt that kept
/// anything counts toward the open quest.
pub open spec fn catch_track(bag: Map<Item, u32>, catch: Seq<Item>, t: (Option<QuestID>, u32, Seq<QuestID>, int, Map<Item, u32>))
    -> (Option<QuestID>, u32, Seq<QuestID>, int, Map<Item, u32>)
{
    if keep_catch_outcome(bag, catch).2.len() == 0 {
        t
    } else {
        note_track(t, EventTypeID::Hunt)
    }
}

/// Room in the quest state `t` to note `e`: the progress can count it if
/// it is the open quest's event, and the experience and storage can take
/// the reward if it completes the quest.
pub open spec fn note_room_t(t: (Option<QuestID>, u32, Seq<QuestID>, int, Map<Item, u32>), e: EventTypeID) -> bool {
    &&& fires(t, e) ==> t.1 + 1 <= u32::MAX
    &&& completes(t, e) ==> {
        let q = quest_spec(t.0.unwrap());
        &&& t.3 + q.reward_xp <= u32::MAX
        &&& forall|i: Item| #[trigger] count_in(t.4, i) + needed_of(q.reward_items, i) <= u32::MAX
    }
}

/// Completing a quest pays its reward in full: the experience goes up by
/// the quest's experience, and storage gains exactly the quest's reward
/// items, one count per unit listed.
pub proof fn lemma_completion_pays_reward(t: (Option<QuestID>, u32, Seq<QuestID>, int, Map<Item, u32>), e: EventTypeID)
    requires
        completes(t, e),
        note_room_t(t, e),
    ensures
        note_track(t, e).3 == t.3 + quest_spec(t.0.unwrap()).reward_xp,
        forall|i: Item| #[trigger] count_in(note_track(t, e).4, i)
            == count_in(t.4, i) + player::needed_of(quest_spec(t.0.unwrap()).reward_items, i),
        note_track(t, e).0 == None::<QuestID>,
        note_track(t, e).2 == t.2.push(t.0.unwrap()),
{
    player::lemma_add_all_exact(t.4, quest_spec(t.0.unwrap()).reward_items);
}

/// Noting one event leaves the room to note another kind of event: only
/// the open quest's own event counts toward it.
proof fn lemma_note_room_after(t: (Option<QuestID>, u32, Seq<QuestID>, int, Map<Item, u32>), e1: EventTypeID, e2: EventTypeID)
    requires
        note_room_t(t, e2),
        e1 != e2,
    ensures
        note_room_t(note_track(t, e1), e2),
{
}

/// Room in the player's counters to note `e`.
pub open spec fn note_room(p: &Player, e: EventTypeID) -> bool {
    note_room_t(track_of(p), e)
}

impl Game {
    /// Keeps what a hunt brought back, in order: each item goes in the bag
    /// if there's room, one that doesn't fit is lost and logged as the bag
    /// being full. Then the haul is logged and counts toward the open quest
    /// if anything was kept; nothing at all back is logged as a miss.
    pub fn keep_catch(&mut self, catch: &Vec<Item>)
        requires
            old(self).wf(),
            note_room(&old(self).player, EventTypeID::Hunt),
        ensures
            bag_fits(&old(self).player) ==> bag_fits(&final(self).player),
            final(self).wf(),
            final(self).player.bag@ == keep_catch_outcome(old(self).player.bag@, catch@).0,
            track_of(&final(self).player) == catch_track(old(self).player.bag@, catch@, track_of(&old(self).player)),
            logged(old(self).spec_log(), final(self).spec_log(),
                catch_log(old(self).player.bag@, catch@, track_of(&old(self).player))),
            final(self).player.level == old(self).player.level,
            final(self).player.crafts_completed == old(self).player.crafts_completed,
            final(self).player.coordinates == old(self).player.coordinates,
            final(self).player.spec_recipes() == old(self).player.spec_recipes(),
            final(self).map == old(self).map,
            quests_sound(&old(self).player) ==> quests_sound(&final(self).player),
            in_order(old(self).spec_log()) ==> in_order(final(self).spec_log()),
    {
        proof {
            lemma_logged_none(self.spec_log());
        }
        if catch.len() == 0 {
            self.log(EventKind::HuntMissed);
            return;
        }
        let mut gained: Vec<Item> = Vec::new();
        let mut k: usize = 0;
        while k < catch.len()
            invariant
                k <= catch@.len(),
                self.wf(),
                ({
                    let (b, l, g) = keep_catch_outcome(old(self).player.bag@, catch@.subrange(0, k as int));
                    &&& self.player.bag@ == b
                    &&& gained@ == g
                    &&& logged(old(self).spec_log(), self.spec_log(), l)
                }),
                self.player.inventory@ == old(self).player.inventory@,
                self.player.same_standing(&old(self).player),
                self.map == old(self).map,
            decreases catch.len() - k,
        {
            let item = catch[k];
            let ghost log0 = self.spec_log();
            proof {
                assert(catch@.subrange(0, k as int + 1).drop_last() =~= catch@.subrange(0, k as int));
            }
            if self.player.add_to_bag(item, 1) {
                gained.push(item);
            } else {
                self.log(EventKind::BagFull { item });
                proof {
                    let prev = keep_catch_outcome(old(self).player.bag@, catch@.subrange(0, k as int)).1;
                    lemma_logged_trans(old(self).spec_log(), log0, self.spec_log(), prev, seq![EventView::BagFull { item }]);
                    assert(prev + seq![EventView::BagFull { item }] =~= prev.push(EventView::BagFull { item }));
                }
            }
            k = k + 1;
        }
        assert(catch@.subrange(0, catch@.len() as int) =~= catch@);
        proof {
            if bag_fits(&old(self).player) {
                lemma_keep_catch_fits(old(self).player.bag@, catch@);
            }
        }
        if gained.len() > 0 {
            let mut items: Vec<(Item, u32)> = Vec::new();
            let mut j: usize = 0;
            while j < gained.len()
                invariant
                    j <= gained@.len(),
                    items@ == one_each(gained@.subrange(0, j as int)),
                decreases gained.len() - j,
            {
                items.push((gained[j], 1));
                j = j + 1;
                assert(items@ =~= one_each(gained@.subrange(0, j as int)));
            }
            assert(gained@.subrange(0, gained@.len() as int) =~= gained@);
            let ghost log1 = self.spec_log();
            let ghost t1 = track_of(&self.player);
            self.log(EventKind::Hunted { items });
            let ghost log2 = self.spec_log();
            assert(track_of(&self.player) == track_of(&old(self).player));
            self.note_quest_event(EventTypeID::Hunt);
            proof {
                let l = keep_catch_outcome(old(self).player.bag@, catch@).1;
                lemma_logged_trans(old(self).spec_log(), log1, log2, l, seq![EventView::Hunted { items: one_each(gained@) }]);
                lemma_logged_trans(old(self).spec_log(), log2, self.spec_log(), l + seq![EventView::Hunted { items: one_each(gained@) }],
                    note_log(t1, EventTypeID::Hunt));
            }
        }
    }

    /// Hunts on the player's tile: needs a Wooden Bow and an Arrow in the
    /// bag (a missing one is logged and nothing else happens), spends the
    /// Arrow, rolls the tile's game (see [`MapTile::roll_hunted_items`]),
    /// keeps the catch (see [`keep_catch`](Self::keep_catch)), and stamps
    /// the tile as hunted. Off the map nothing happens.
    pub fn hunt(&mut self)
        requires
            old(self).wf(),
            note_room(&old(self).player, EventTypeID::Hunt),
        ensures
            bag_fits(&old(self).player) ==> bag_fits(&final(self).player),
            final(self).wf(),
            final(self).player.level == old(self).player.level,
            final(self).player.crafts_completed == old(self).player.crafts_completed,
            final(self).player.coordinates == old(self).player.coordinates,
            final(self).player.spec_recipes() == old(self).player.spec_recipes(),
            match old(self).map.tile_index(old(self).player.coordinates) {
                None => final(self).player == old(self).player && final(self).spec_log() == old(self).spec_log()
                    && final(self).map == old(self).map,
                Some((x, y)) => {
                    let tile = old(self).map.tile_at(x, y);
                    let p = &old(self).player;
                    if p.bag.count_of(Item::WoodenBow) == 0 {
                        &&& final(self).player == *p
                        &&& final(self).map == old(self).map
                        &&& logged(old(self).spec_log(), final(self).spec_log(), seq![EventView::HuntUnprepared { missing: Item::WoodenBow }])
                    } else if p.bag.count_of(Item::Arrow) == 0 {
                        &&& final(self).player == *p
                        &&& final(self).map == old(self).map
                        &&& logged(old(self).spec_log(), final(self).spec_log(), seq![EventView::HuntUnprepared { missing: Item::Arrow }])
                    } else {
                        let bag1 = spend_map(p.bag@, Item::Arrow, 1);
                        &&& exists|rolls: Seq<u64>, elapsed: Option<u64>|
                            rolls.len() == tile.hunt_items@.len()
                            && (forall|i: int| 0 <= i < rolls.len() ==> #[trigger] rolls[i] < map::CERTAIN)
                            && (elapsed.is_none() <==> tile.last_hunt_time.is_none())
                            && map::measured_since(tile.last_hunt_time, elapsed)
                            && final(self).player.bag@ == keep_catch_outcome(bag1, #[trigger] tile.game_for(elapsed, rolls)).0
                            && track_of(&final(self).player) == catch_track(bag1, tile.game_for(elapsed, rolls), track_of(p))
                            && logged(old(self).spec_log(), final(self).spec_log(), catch_log(bag1, tile.game_for(elapsed, rolls), track_of(p)))
                        &&& final(self).map.same_ground(&old(self).map)
                        &&& final(self).map.tile_at(x, y).last_hunt_time.is_some()
                        &&& final(self).map.tile_at(x, y).last_search_time == tile.last_search_time
                        &&& forall|a: int, b: int| !(a == x && b == y) && 0 <= b < old(self).map.tiles@.len() && 0 <= a < old(self).map.tiles@[b]@.len()
                            ==> #[trigger] final(self).map.tile_at(a, b) == old(self).map.tile_at(a, b)
                    }
                },
            },
            quests_sound(&old(self).player) ==> quests_sound(&final(self).player),
            in_order(old(self).spec_log()) ==> in_order(final(self).spec_log()),
    {
        let coords = self.player.coordinates;
        if self.map.get_tile(coords).is_none() {
            return;
        }
        if !self.player.has_item_in_bag(Item::WoodenBow) {
            self.log(EventKind::HuntUnprepared { missing: Item::WoodenBow });
            return;
        }
        if !self.player.has_item_in_bag(Item::Arrow) {
            self.log(EventKind::HuntUnprepared { missing: Item::Arrow });
            return;
        }
        self.player.spend_from_bag(Item::Arrow, 1);
        let catch = match self.map.get_tile(coords) {
            Some(tile) => tile.roll_hunted_items(),
            None => Vec::new(),
        };
        assert(track_of(&self.player) == track_of(&old(self).player));
        self.keep_catch(&catch);
        self.map.update_tile_last_hunt_time(coords);
    }
}


/// Every recipe the player knows is one of the book's.
/// Room in the counters for a craft of `name` that succeeds: the output
/// added to storage, the event noted toward the open quest, the craft
/// counted and its experience point, if any, granted.
pub open spec fn craft_room(g: &Game, name: Seq<char>) -> bool {
    let p = g.player;
    g.at_village() ==> match first_where(p.spec_recipes(), named(name)) {
        Some(r) => first_short_from(p, r.consumables, 0) is None && first_where(r.tools, lacking(p)) is None ==> {
            let s1 = draw_all(p.inventory@, p.bag@, r.consumables).0;
            let t1 = (p.open_quest, p.quest_progress, p.spec_completed(), p.experience as int, add_map(s1, r.output, 1));
            &&& count_in(s1, r.output) + 1 <= u32::MAX
            &&& note_room_t(t1, EventTypeID::CraftItem(r.output))
            &&& p.crafts_completed + 1 <= u32::MAX
            &&& note_track(t1, EventTypeID::CraftItem(r.output)).3 + craft_bonus(p.crafts_completed + 1) <= u32::MAX
        },
        None => true,
    }
}

/// Room in the counters for an experiment with `items` that produces
/// something: the output added to storage and the event noted toward the
/// open quest.
pub open spec fn experiment_room(g: &Game, items: Seq<(Item, u32)>) -> bool {
    let p = g.player;
    items.len() > 0 && g.at_village() && first_short_from(p, items, 0) is None ==> {
        let s1 = draw_all(p.inventory@, p.bag@, items).0;
        match first_where(recipe_book(), matching(items)) {
            Some(r) => first_where(r.tools, lacking_in(s1)) is None ==> {
                let t1 = (p.open_quest, p.quest_progress, p.spec_completed(), p.experience as int, add_map(s1, r.output, 1));
                &&& count_in(s1, r.output) + 1 <= u32::MAX
                &&& note_room_t(t1, EventTypeID::CraftItem(r.output))
            },
            None => true,
        }
    }
}

/// Room in storage for what taking `item` apart gives back.
pub open spec fn disassembly_room(g: &Game, item: Item) -> bool {
    let p = g.player;
    g.at_village() && p.combined_of(item) > 0 ==> match first_where(recipe_book(), taking_apart(item)) {
        Some(r) => forall|i: Item| #[trigger] count_in(storage_after_draw(p.inventory@, item, 1), i) + needed_of(r.consumables, i) <= u32::MAX,
        None => true,
    }
}

/// The experience a craft brings once `n` crafts are done: a point every
/// tenth.
pub open spec fn craft_bonus(n: int) -> int {
    if n % 10 == 0 { 1 } else { 0 }
}

/// The recipe has the name `name`.
pub open spec fn named(name: Seq<char>) -> spec_fn(RecipeView) -> bool {
    |r: RecipeView| r.name == name
}

/// Storage holds none of the tool.
pub open spec fn lacking(p: Player) -> spec_fn(Item) -> bool {
    |t: Item| p.inventory.count_of(t) == 0
}

impl Game {
    /// Records that `item` was produced by crafting or experimenting: one
    /// more in storage, counted toward the open quest.
    fn grant_item(&mut self, item: Item)
        requires
            old(self).wf(),
            old(self).player.inventory.count_of(item) + 1 <= u32::MAX,
            ({
                let p = &old(self).player;
                note_room_t((p.open_quest, p.quest_progress, p.spec_completed(), p.experience as int, add_map(p.inventory@, item, 1)),
                    EventTypeID::CraftItem(item))
            }),
        ensures
            final(self).wf(),
            ({
                let p = &old(self).player;
                let t1 = (p.open_quest, p.quest_progress, p.spec_completed(), p.experience as int, add_map(p.inventory@, item, 1));
                &&& track_of(&final(self).player) == note_track(t1, EventTypeID::CraftItem(item))
                &&& logged(old(self).spec_log(), final(self).spec_log(), note_log(t1, EventTypeID::CraftItem(item)))
            }),
            same_but_quests(&final(self).player, &old(self).player),
            final(self).map == old(self).map,
    {
        self.player.add_to_inventory(item, 1);
        self.note_quest_event(EventTypeID::CraftItem(item));
    }

    /// Crafts a known recipe by name at the Village. Consumables are drawn
    /// from storage first and the bag for the remainder; tools must be in
    /// storage. Away from the Village nothing happens; otherwise an unknown
    /// name, the first short consumable, or the first missing tool is
    /// logged and nothing else happens. A craft logs the output, adds it to
    /// storage (counting toward the open quest) and counts the craft: every
    /// tenth brings a point of experience.
    #[verifier::rlimit(40)]
    pub fn craft(&mut self, recipe_name: &str)
        requires
            old(self).wf(),
            craft_room(old(self), recipe_name@),
        ensures
            bag_fits(&old(self).player) ==> bag_fits(&final(self).player),
            final(self).wf(),
            final(self).map == old(self).map,
            ({
                let p = old(self).player;
                if !old(self).at_village() {
                    final(self).player == p && final(self).spec_log() == old(self).spec_log()
                } else {
                    match first_where(p.spec_recipes(), named(recipe_name@)) {
                        None => final(self).player == p
                            && logged(old(self).spec_log(), final(self).spec_log(), seq![EventView::UnknownRecipe { recipe: recipe_name@ }]),
                        Some(r) => match first_short_from(p, r.consumables, 0) {
                            Some(k) => final(self).player == p
                                && logged(old(self).spec_log(), final(self).spec_log(), seq![EventView::CraftShortage { needed: r.consumables[k].0, output: r.output }]),
                            None => match first_where(r.tools, lacking(p)) {
                                Some(tool) => final(self).player == p
                                    && logged(old(self).spec_log(), final(self).spec_log(), seq![EventView::CraftMissingTool { tool, output: r.output }]),
                                None => {
                                    let (s1, b1) = draw_all(p.inventory@, p.bag@, r.consumables);
                                    let t1 = (p.open_quest, p.quest_progress, p.spec_completed(), p.experience as int, add_map(s1, r.output, 1));
                                    let t2 = note_track(t1, EventTypeID::CraftItem(r.output));
                                    &&& final(self).player.bag@ == b1
                                    &&& final(self).player.crafts_completed == p.crafts_completed + 1
                                    &&& track_of(&final(self).player) == (t2.0, t2.1, t2.2, t2.3 + craft_bonus(p.crafts_completed + 1), t2.4)
                                    &&& final(self).player.level == p.level
                                    &&& final(self).player.coordinates == p.coordinates
                                    &&& final(self).player.spec_recipes() == p.spec_recipes()
                                    &&& logged(old(self).spec_log(), final(self).spec_log(),
                                        seq![EventView::Crafted { output: r.output }] + note_log(t1, EventTypeID::CraftItem(r.output)))
                                },
                            },
                        },
                    }
                }
            }),
            quests_sound(&old(self).player) ==> quests_sound(&final(self).player),
            in_order(old(self).spec_log()) ==> in_order(final(self).spec_log()),
    {
        if !self.at_craftable_location() {
            return;
        }
        let ghost p = self.player;
        let recipe = match self.player.find_known_recipe(recipe_name) {
            None => {
                proof {
                    assert forall|j: int| 0 <= j < p.spec_recipes().len() implies !named(recipe_name@)(#[trigger] p.spec_recipes()[j]) by {
                        assert(names_of(p.spec_recipes())[j] == p.spec_recipes()[j].name);
                    }
                    lemma_first_where_none(p.spec_recipes(), named(recipe_name@));
                }
                self.log(EventKind::UnknownRecipe { recipe: String::from_str(recipe_name) });
                return;
            },
            Some(r) => r,
        };
        proof {
            let i = choose|i: int| 0 <= i < p.spec_recipes().len() && p.spec_recipes()[i] == recipe@
                && recipe@.name == recipe_name@
                && forall|j: int| 0 <= j < i ==> (#[trigger] p.spec_recipes()[j]).name != recipe_name@;
            lemma_first_where_at(p.spec_recipes(), named(recipe_name@), i);
        }
        match self.player.first_shortage(recipe.consumables().as_slice()) {
            Some((item, _available, _needed)) => {
                proof {
                    let c = recipe@.consumables;
                    let k = choose|k: int| 0 <= k < c.len() && c[k] == (item, _needed)
                        && short_at(p, c, k)
                        && _available == p.combined_of(item) - needed_of(c.take(k), item)
                        && forall|j: int| 0 <= j < k ==> !short_at(p, c, j);
                    lemma_first_short_at(p, c, 0, k);
                }
                self.log(EventKind::CraftShortage { needed: item, output: recipe.output() });
                return;
            },
            None => {
                proof {
                    lemma_first_short_none(p, recipe@.consumables, 0);
                }
            },
        }
        match self.player.first_missing_tool(recipe.tools()) {
            Some(tool) => {
                proof {
                    let k = choose|k: int| 0 <= k < recipe@.tools.len() && recipe@.tools[k] == tool && p.inventory.count_of(tool) == 0
                        && forall|j: int| 0 <= j < k ==> p.inventory.count_of(#[trigger] recipe@.tools[j]) > 0;
                    lemma_first_where_at(recipe@.tools, lacking(p), k);
                }
                self.log(EventKind::CraftMissingTool { tool, output: recipe.output() });
                return;
            },
            None => {
                proof {
                    lemma_first_where_none(recipe@.tools, lacking(p));
                }
            },
        }
        self.player.spend_all_storage_then_bag(recipe.consumables());
        let ghost log0 = self.spec_log();
        self.log(EventKind::Crafted { output: recipe.output() });
        let ghost log1 = self.spec_log();
        self.grant_item(recipe.output());
        proof {
            let t1 = (p.open_quest, p.quest_progress, p.spec_completed(), p.experience as int,
                add_map(draw_all(p.inventory@, p.bag@, recipe@.consumables).0, recipe@.output, 1));
            lemma_logged_trans(log0, log1, self.spec_log(), seq![EventView::Crafted { output: recipe@.output }],
                note_log(t1, EventTypeID::CraftItem(recipe@.output)));
        }
        self.player.record_successful_craft();
    }
}


/// `s` holds none of the tool.
pub open spec fn lacking_in(s: Map<Item, u32>) -> spec_fn(Item) -> bool {
    |t: Item| count_in(s, t) == 0
}

/// The recipe's consumables are exactly `items`, in any order.
pub open spec fn matching(items: Seq<(Item, u32)>) -> spec_fn(RecipeView) -> bool {
    |v: RecipeView| matches_items(v, items)
}

/// The recipe takes `item` apart.
pub open spec fn taking_apart(item: Item) -> spec_fn(RecipeView) -> bool {
    |v: RecipeView| takes_apart(v, item)
}

proof fn lemma_first_in_book(p: spec_fn(RecipeView) -> bool, found: Option<RecipeView>)
    requires
        first_in_book(p, found),
    ensures
        first_where(recipe_book(), p) == found,
{
    match found {
        Some(v) => {
            let i = choose|i: int| 0 <= i < recipe_book().len() && p(#[trigger] recipe_book()[i]) && v == recipe_book()[i]
                && forall|j: int| 0 <= j < i ==> !p(#[trigger] recipe_book()[j]);
            lemma_first_where_at(recipe_book(), p, i);
        },
        None => {
            lemma_first_where_none(recipe_book(), p);
        },
    }
}

impl Game {
    /// Tries `items` as an experiment at the Village: drawn from storage
    /// first and the bag for the remainder. Nothing happens for no items or
    /// away from the Village. A shortage is logged with what was there and
    /// what was needed, and nothing is drawn. Otherwise the items are used
    /// up whatever comes of it: no matching craftable recipe is logged as a
    /// failure; a matching recipe whose tool isn't in storage produces
    /// nothing; a match teaches the recipe and produces its output, counted
    /// toward the open quest.
    #[verifier::rlimit(40)]
    pub fn experiment(&mut self, items: &[(Item, u32)])
        requires
            old(self).wf(),
            experiment_room(old(self), items@),
        ensures
            bag_fits(&old(self).player) ==> bag_fits(&final(self).player),
            final(self).wf(),
            final(self).map == old(self).map,
            ({
                let p = old(self).player;
                if items@.len() == 0 || !old(self).at_village() {
                    final(self).player == p && final(self).spec_log() == old(self).spec_log()
                } else {
                    match first_short_from(p, items@, 0) {
                        Some(k) => final(self).player == p
                            && logged(old(self).spec_log(), final(self).spec_log(), seq![EventView::ExperimentShortage {
                                items: items@,
                                missing: items@[k].0,
                                available: (p.combined_of(items@[k].0) - needed_of(items@.take(k), items@[k].0)) as u32,
                                needed: items@[k].1,
                            }]),
                        None => {
                            let (s1, b1) = draw_all(p.inventory@, p.bag@, items@);
                            &&& final(self).player.bag@ == b1
                            &&& final(self).player.level == p.level
                            &&& final(self).player.coordinates == p.coordinates
                            &&& final(self).player.crafts_completed == p.crafts_completed
                            &&& match first_where(recipe_book(), matching(items@)) {
                                None => track_of(&final(self).player) == (p.open_quest, p.quest_progress, p.spec_completed(), p.experience as int, s1)
                                    && final(self).player.spec_recipes() == p.spec_recipes()
                                    && logged(old(self).spec_log(), final(self).spec_log(), seq![EventView::ExperimentFailed { items: items@ }]),
                                Some(r) => match first_where(r.tools, lacking_in(s1)) {
                                    Some(tool) => track_of(&final(self).player) == (p.open_quest, p.quest_progress, p.spec_completed(), p.experience as int, s1)
                                        && final(self).player.spec_recipes() == p.spec_recipes()
                                        && logged(old(self).spec_log(), final(self).spec_log(), seq![EventView::CraftMissingTool { tool, output: r.output }]),
                                    None => {
                                        let newly = !names_of(p.spec_recipes()).contains(r.name);
                                        let t1 = (p.open_quest, p.quest_progress, p.spec_completed(), p.experience as int, add_map(s1, r.output, 1));
                                        &&& final(self).player.spec_recipes() == if newly { p.spec_recipes().push(r) } else { p.spec_recipes() }
                                        &&& track_of(&final(self).player) == note_track(t1, EventTypeID::CraftItem(r.output))
                                        &&& logged(old(self).spec_log(), final(self).spec_log(),
                                            seq![EventView::Experimented { items: items@, output: r.output, newly_learned: newly }]
                                                + note_log(t1, EventTypeID::CraftItem(r.output)))
                                    },
                                },
                            }
                        },
                    }
                }
            }),
            quests_sound(&old(self).player) ==> quests_sound(&final(self).player),
            in_order(old(self).spec_log()) ==> in_order(final(self).spec_log()),
    {
        if items.len() == 0 {
            return;
        }
        if !self.at_craftable_location() {
            return;
        }
        let ghost p = self.player;
        match self.player.first_shortage(items) {
            Some((item, available, needed)) => {
                proof {
                    let k = choose|k: int| 0 <= k < items@.len() && items@[k] == (item, needed)
                        && short_at(p, items@, k)
                        && available == p.combined_of(item) - needed_of(items@.take(k), item)
                        && forall|j: int| 0 <= j < k ==> !short_at(p, items@, j);
                    lemma_first_short_at(p, items@, 0, k);
                }
                self.log(EventKind::ExperimentShortage { items: copy_slice(items), missing: item, available, needed });
                return;
            },
            None => {
                proof {
                    lemma_first_short_none(p, items@, 0);
                }
            },
        }
        let owned = copy_slice(items);
        self.player.spend_all_storage_then_bag(&owned);
        let ghost drawn = self.player;
        let recipe = match find_matching(items) {
            None => {
                proof {
                    lemma_first_in_book(matching(items@), None);
                }
                self.log(EventKind::ExperimentFailed { items: copy_slice(items) });
                return;
            },
            Some(r) => r,
        };
        proof {
            lemma_first_in_book(matching(items@), Some(recipe@));
        }
        match self.player.first_missing_tool(recipe.tools()) {
            Some(tool) => {
                proof {
                    let k = choose|k: int| 0 <= k < recipe@.tools.len() && recipe@.tools[k] == tool && drawn.inventory.count_of(tool) == 0
                        && forall|j: int| 0 <= j < k ==> drawn.inventory.count_of(#[trigger] recipe@.tools[j]) > 0;
                    lemma_first_where_at(recipe@.tools, lacking_in(drawn.inventory@), k);
                }
                self.log(EventKind::CraftMissingTool { tool, output: recipe.output() });
                return;
            },
            None => {
                proof {
                    lemma_first_where_none(recipe@.tools, lacking_in(drawn.inventory@));
                }
            },
        }
        let output = recipe.output();
        let newly_learned = self.player.learn_recipe(recipe);
        let ghost log0 = self.spec_log();
        self.log(EventKind::Experimented { items: copy_slice(items), output, newly_learned });
        let ghost log1 = self.spec_log();
        self.grant_item(output);
        proof {
            let t1 = (p.open_quest, p.quest_progress, p.spec_completed(), p.experience as int,
                add_map(draw_all(p.inventory@, p.bag@, items@).0, output, 1));
            lemma_logged_trans(log0, log1, self.spec_log(),
                seq![EventView::Experimented { items: items@, output, newly_learned }],
                note_log(t1, EventTypeID::CraftItem(output)));
        }
    }

    /// Takes one `item` apart at the Village: drawn from storage first, the
    /// bag otherwise, its recipe's consumables going to storage. Nothing
    /// happens away from the Village, when no recipe takes `item` apart, or
    /// when the player holds none.
    pub fn disassemble(&mut self, item: Item)
        requires
            old(self).wf(),
            disassembly_room(old(self), item),
        ensures
            bag_fits(&old(self).player) ==> bag_fits(&final(self).player),
            final(self).wf(),
            final(self).map == old(self).map,
            ({
                let p = old(self).player;
                match first_where(recipe_book(), taking_apart(item)) {
                    Some(r) if old(self).at_village() && p.combined_of(item) > 0 => {
                        &&& final(self).player.inventory@ == add_all_map(storage_after_draw(p.inventory@, item, 1), r.consumables)
                        &&& final(self).player.bag@ == bag_after_draw(p.inventory@, p.bag@, item, 1)
                        &&& final(self).player.same_standing(&p)
                        &&& logged(old(self).spec_log(), final(self).spec_log(), seq![EventView::Disassembled { item }])
                    },
                    _ => final(self).player == p && final(self).spec_log() == old(self).spec_log(),
                }
            }),
            quests_sound(&old(self).player) ==> quests_sound(&final(self).player),
            in_order(old(self).spec_log()) ==> in_order(final(self).spec_log()),
    {
        if !self.at_craftable_location() {
            return;
        }
        let recipe = match disassembly_for(item) {
            None => {
                proof {
                    lemma_first_in_book(taking_apart(item), None);
                }
                return;
            },
            Some(r) => r,
        };
        proof {
            lemma_first_in_book(taking_apart(item), Some(recipe@));
        }
        if !self.player.has_item_combined(item) {
            return;
        }
        let ghost p = self.player;
        self.player.spend_storage_then_bag(item, 1);
        self.player.add_all_to_inventory(recipe.consumables());
        self.log(EventKind::Disassembled { item });
    }

    /// Moves `amount` of `item` from the bag to storage at the Village.
    /// Nothing happens away from it, or if the bag doesn't hold `amount`.
    /// Not logged.
    pub fn transfer_to_storage(&mut self, item: Item, amount: u32)
        requires
            old(self).at_village() && old(self).player.bag.count_of(item) >= amount
                ==> old(self).player.inventory.count_of(item) + amount <= u32::MAX,
        ensures
            bag_fits(&old(self).player) ==> bag_fits(&final(self).player),
            final(self).map == old(self).map,
            final(self).spec_log() == old(self).spec_log(),
            final(self).latest_ms == old(self).latest_ms,
            final(self).player.same_standing(&old(self).player),
            if old(self).at_village() && old(self).player.bag.count_of(item) >= amount {
                final(self).player.bag@ == spend_map(old(self).player.bag@, item, amount)
                    && final(self).player.inventory@ == add_map(old(self).player.inventory@, item, amount)
            } else {
                final(self).player == old(self).player
            },
            quests_sound(&old(self).player) ==> quests_sound(&final(self).player),
            in_order(old(self).spec_log()) ==> in_order(final(self).spec_log()),
    {
        if !self.at_craftable_location() {
            return;
        }
        if self.player.bag_count(item) < amount {
            return;
        }
        self.player.transfer_to_storage(item, amount);
    }

    /// Moves `amount` of `item` from storage to the bag at the Village.
    /// Nothing happens away from it, if storage doesn't hold `amount`, or if
    /// the bag has no room for it. Not logged.
    pub fn transfer_to_bag(&mut self, item: Item, amount: u32)
        ensures
            bag_fits(&old(self).player) ==> bag_fits(&final(self).player),
            final(self).map == old(self).map,
            final(self).spec_log() == old(self).spec_log(),
            final(self).latest_ms == old(self).latest_ms,
            final(self).player.same_standing(&old(self).player),
            if old(self).at_village() && old(self).player.inventory.count_of(item) >= amount
                && old(self).player.bag.spec_total() + amount <= BAG_CAPACITY {
                final(self).player.inventory@ == spend_map(old(self).player.inventory@, item, amount)
                    && final(self).player.bag@ == add_map(old(self).player.bag@, item, amount)
            } else {
                final(self).player.inventory@ == old(self).player.inventory@
                    && final(self).player.bag@ == old(self).player.bag@
            },
            quests_sound(&old(self).player) ==> quests_sound(&final(self).player),
            in_order(old(self).spec_log()) ==> in_order(final(self).spec_log()),
    {
        if !self.at_craftable_location() {
            return;
        }
        self.player.transfer_to_bag(item, amount);
    }

    /// Drops `amount` of `item` from the bag, anywhere, and logs it.
    /// Nothing happens if the bag doesn't hold `amount`.
    pub fn drop_from_bag(&mut self, item: Item, amount: u32)
        requires
            old(self).wf(),
        ensures
            bag_fits(&old(self).player) ==> bag_fits(&final(self).player),
            final(self).wf(),
            final(self).map == old(self).map,
            if old(self).player.bag.count_of(item) >= amount {
                &&& final(self).player.bag@ == spend_map(old(self).player.bag@, item, amount)
                &&& final(self).player.inventory@ == old(self).player.inventory@
                &&& final(self).player.same_standing(&old(self).player)
                &&& logged(old(self).spec_log(), final(self).spec_log(), seq![EventView::Dropped { item }])
            } else {
                final(self).player == old(self).player && final(self).spec_log() == old(self).spec_log()
            },
            quests_sound(&old(self).player) ==> quests_sound(&final(self).player),
            in_order(old(self).spec_log()) ==> in_order(final(self).spec_log()),
    {
        if self.player.bag_count(item) < amount {
            return;
        }
        self.player.spend_from_bag(item, amount);
        self.log(EventKind::Dropped { item });
    }

    /// Drops `amount` of `item` from storage at the Village, and logs it.
    /// Nothing happens away from it, or if storage doesn't hold `amount`.
    pub fn drop_from_storage(&mut self, item: Item, amount: u32)
        requires
            old(self).wf(),
        ensures
            bag_fits(&old(self).player) ==> bag_fits(&final(self).player),
            final(self).wf(),
            final(self).map == old(self).map,
            if old(self).at_village() && old(self).player.inventory.count_of(item) >= amount {
                &&& final(self).player.inventory@ == spend_map(old(self).player.inventory@, item, amount)
                &&& final(self).player.bag@ == old(self).player.bag@
                &&& final(self).player.same_standing(&old(self).player)
                &&& logged(old(self).spec_log(), final(self).spec_log(), seq![EventView::Dropped { item }])
            } else {
                final(self).player == old(self).player && final(self).spec_log() == old(self).spec_log()
            },
            quests_sound(&old(self).player) ==> quests_sound(&final(self).player),
            in_order(old(self).spec_log()) ==> in_order(final(self).spec_log()),
    {
        if !self.at_craftable_location() {
            return;
        }
        if self.player.inventory_count(item) < amount {
            return;
        }
        self.player.spend(item, amount);
        self.log(EventKind::Dropped { item });
    }
}

impl Default for Game {
    /// A new game, as [`Game::new`] makes it.
    fn default() -> (r: Game)
        ensures
            r.wf(),
            r.player.is_fresh(),
            quests_sound(&r.player),
            in_order(r.spec_log()),
            r.map.is_full_grid(),
            r.map.half == 25,
            r.at_village(),
            r.spec_log().len() == 1,
            r.spec_log()[0].kind@ == EventView::Awoke,
            r.spec_log()[0].elapsed_ms == 0,
            r.latest_ms == 0,
    {
        Game::new()
    }
}

} // verus!
