//! The player: where they stand, what they carry and store, what they know,
//! and how their quests are going.

use vstd::prelude::*;
use super::item::Item;
use super::counts::{ItemCounts, count_in, add_map, spend_map};
use super::map::{Direction, direction_delta};
use super::quest::QuestID;
use super::recipe::{Recipe, RecipeView, recipe_named, recipe_book, recipes};
use crate::text::str_eq;

verus! {

/// How many items, summed over every kind, the bag can hold.
pub const BAG_CAPACITY: u32 = 20;

#[derive(Debug)]
pub struct Player {
    pub level: u32,
    pub experience: u32,
    /// Successful crafts so far; every tenth grants a point of experience.
    pub crafts_completed: u32,
    pub coordinates: (i32, i32),
    /// The village storage: unlimited, reachable only at the village.
    pub inventory: ItemCounts,
    /// What the player carries: limited to `BAG_CAPACITY` items in all.
    pub bag: ItemCounts,
    /// The recipes discovered so far, in discovery order.
    pub recipes: Vec<Recipe>,
    /// The quest being worked on, if any.
    pub open_quest: Option<QuestID>,
    /// Occurrences of the open quest's condition seen since it was accepted.
    pub quest_progress: u32,
    /// Quests completed so far, in completion order.
    pub quests_completed: Vec<QuestID>,
}

/// The names of `recipes`, in order.
pub open spec fn names_of(recipes: Seq<RecipeView>) -> Seq<Seq<char>> {
    recipes.map_values(|r: RecipeView| r.name)
}

/// The number of craftable recipes in the book.
pub open spec fn craftable_count(book: Seq<RecipeView>) -> nat
    decreases book.len(),
{
    if book.len() == 0 {
        0
    } else {
        craftable_count(book.drop_last()) + if book.last().craftable() { 1nat } else { 0nat }
    }
}

impl Player {
    /// The recipes the player has discovered, in discovery order.
    /// A player as a new game starts one: level 1 with no experience and no
    /// crafts, at the origin, with empty storage and bag, no recipes, and no
    /// quest open, in progress or completed.
    pub open spec fn is_fresh(&self) -> bool {
        &&& self.level == 1
        &&& self.experience == 0
        &&& self.crafts_completed == 0
        &&& self.coordinates == (0i32, 0i32)
        &&& self.inventory@ == Map::<Item, u32>::empty()
        &&& self.bag@ == Map::<Item, u32>::empty()
        &&& self.bag.spec_total() == 0
        &&& self.spec_recipes() == Seq::<RecipeView>::empty()
        &&& self.spec_open_quest() == None::<QuestID>
        &&& self.spec_quest_progress() == 0
        &&& self.spec_completed() == Seq::<QuestID>::empty()
    }

    pub open spec fn spec_recipes(&self) -> Seq<RecipeView> {
        self.recipes@.map_values(|r: Recipe| r@)
    }

    pub open spec fn spec_open_quest(&self) -> Option<QuestID> {
        self.open_quest
    }

    pub open spec fn spec_quest_progress(&self) -> u32 {
        self.quest_progress
    }

    pub open spec fn spec_completed(&self) -> Seq<QuestID> {
        self.quests_completed@
    }

    /// Combined count of `item` in storage and the bag.
    pub open spec fn combined_of(&self, item: Item) -> nat {
        self.inventory.count_of(item) + self.bag.count_of(item)
    }

    /// Everything but the bag, storage and recipes is as in `other`.
    pub open spec fn same_standing(&self, other: &Player) -> bool {
        &&& self.level == other.level
        &&& self.experience == other.experience
        &&& self.crafts_completed == other.crafts_completed
        &&& self.coordinates == other.coordinates
        &&& self.spec_recipes() == other.spec_recipes()
        &&& self.spec_open_quest() == other.spec_open_quest()
        &&& self.spec_quest_progress() == other.spec_quest_progress()
        &&& self.spec_completed() == other.spec_completed()
    }

    /// The recipes the player has discovered, in discovery order.
    pub fn known_recipes(&self) -> (r: &Vec<Recipe>)
        ensures
            r@.map_values(|x: Recipe| x@) == self.spec_recipes(),
    {
        &self.recipes
    }

    /// The currently active quest, if any.
    pub fn open_quest(&self) -> (r: Option<QuestID>)
        ensures
            r == self.spec_open_quest(),
    {
        self.open_quest
    }

    /// Occurrences of the open quest's condition seen so far.
    pub fn quest_progress(&self) -> (r: u32)
        ensures
            r == self.spec_quest_progress(),
    {
        self.quest_progress
    }

    /// Quests completed so far, in completion order.
    pub fn completed_quests(&self) -> (r: &Vec<QuestID>)
        ensures
            r@ == self.spec_completed(),
    {
        &self.quests_completed
    }

    /// Sets quest state directly (used when loading a save).
    pub fn restore_quest_state(
        &mut self,
        open_quest: Option<QuestID>,
        quest_progress: u32,
        quests_completed: Vec<QuestID>,
    )
        ensures
            final(self).spec_open_quest() == open_quest,
            final(self).spec_quest_progress() == quest_progress,
            final(self).spec_completed() == quests_completed@,
            final(self).spec_recipes() == old(self).spec_recipes(),
            final(self).inventory@ == old(self).inventory@,
            final(self).bag@ == old(self).bag@,
            final(self).level == old(self).level,
            final(self).experience == old(self).experience,
            final(self).crafts_completed == old(self).crafts_completed,
            final(self).coordinates == old(self).coordinates,
    {
        self.open_quest = open_quest;
        self.quest_progress = quest_progress;
        self.quests_completed = quests_completed;
    }

    /// Opens `id` as the active quest, resetting progress to zero.
    pub fn open_quest_as(&mut self, id: QuestID)
        ensures
            final(self).spec_open_quest() == Some(id),
            final(self).spec_quest_progress() == 0,
            final(self).spec_completed() == old(self).spec_completed(),
            final(self).spec_recipes() == old(self).spec_recipes(),
            final(self).inventory@ == old(self).inventory@,
            final(self).bag@ == old(self).bag@,
            final(self).level == old(self).level,
            final(self).experience == old(self).experience,
            final(self).crafts_completed == old(self).crafts_completed,
            final(self).coordinates == old(self).coordinates,
    {
        self.open_quest = Some(id);
        self.quest_progress = 0;
    }

    /// Advances progress toward the open quest's condition by one, returning
    /// the new count.
    pub fn advance_quest_progress(&mut self) -> (r: u32)
        requires
            old(self).spec_quest_progress() < u32::MAX,
        ensures
            r == old(self).spec_quest_progress() + 1,
            final(self).spec_quest_progress() == r,
            final(self).spec_open_quest() == old(self).spec_open_quest(),
            final(self).spec_completed() == old(self).spec_completed(),
            final(self).spec_recipes() == old(self).spec_recipes(),
            final(self).inventory@ == old(self).inventory@,
            final(self).bag@ == old(self).bag@,
            final(self).level == old(self).level,
            final(self).experience == old(self).experience,
            final(self).crafts_completed == old(self).crafts_completed,
            final(self).coordinates == old(self).coordinates,
    {
        self.quest_progress = self.quest_progress + 1;
        self.quest_progress
    }

    /// Closes the open quest, appending `id` to the completed quests and
    /// resetting progress.
    pub fn complete_quest(&mut self, id: QuestID)
        ensures
            final(self).spec_open_quest() == None::<QuestID>,
            final(self).spec_quest_progress() == 0,
            final(self).spec_completed() == old(self).spec_completed().push(id),
            final(self).spec_recipes() == old(self).spec_recipes(),
            final(self).inventory@ == old(self).inventory@,
            final(self).bag@ == old(self).bag@,
            final(self).level == old(self).level,
            final(self).experience == old(self).experience,
            final(self).crafts_completed == old(self).crafts_completed,
            final(self).coordinates == old(self).coordinates,
    {
        self.open_quest = None;
        self.quest_progress = 0;
        self.quests_completed.push(id);
    }

    /// `(recipes discovered, craftable recipes that exist)`.
    pub fn recipe_progress(&self) -> (r: (usize, usize))
        ensures
            r.0 == self.spec_recipes().len(),
            r.1 == craftable_count(recipe_book()),
    {
        let book = recipes();
        let mut n: usize = 0;
        let mut i: usize = 0;
        while i < book.len()
            invariant
                i <= book@.len(),
                book@.len() == recipe_book().len(),
                forall|k: int| 0 <= k < book@.len() ==> #[trigger] book@[k]@ == recipe_book()[k],
                n == craftable_count(recipe_book().subrange(0, i as int)),
                n <= i,
            decreases book.len() - i,
        {
            assert(recipe_book().subrange(0, i as int + 1).drop_last() =~= recipe_book().subrange(0, i as int));
            if book[i].craftable() {
                n = n + 1;
            }
            i = i + 1;
        }
        assert(recipe_book().subrange(0, book@.len() as int) =~= recipe_book());
        (self.recipes.len(), n)
    }

    fn knows_name(&self, name: &str) -> (r: bool)
        ensures
            r == names_of(self.spec_recipes()).contains(name@),
    {
        let mut i: usize = 0;
        while i < self.recipes.len()
            invariant
                i <= self.recipes@.len(),
                forall|j: int| 0 <= j < i ==> (#[trigger] self.recipes@[j])@.name != name@,
            decreases self.recipes.len() - i,
        {
            if str_eq(self.recipes[i].name(), name) {
                assert(names_of(self.spec_recipes())[i as int] == name@);
                return true;
            }
            i = i + 1;
        }
        assert(!names_of(self.spec_recipes()).contains(name@)) by {
            if names_of(self.spec_recipes()).contains(name@) {
                let j = choose|j: int| 0 <= j < names_of(self.spec_recipes()).len() && names_of(self.spec_recipes())[j] == name@;
                assert(self.recipes@[j]@.name == name@);
            }
        }
        false
    }

    /// Marks `recipe` as known if no known recipe has its name. Returns
    /// whether it was newly learned.
    pub fn learn_recipe(&mut self, recipe: Recipe) -> (r: bool)
        ensures
            r == !names_of(old(self).spec_recipes()).contains(recipe@.name),
            final(self).spec_recipes() == if r {
                old(self).spec_recipes().push(recipe@)
            } else {
                old(self).spec_recipes()
            },
            final(self).spec_open_quest() == old(self).spec_open_quest(),
            final(self).spec_quest_progress() == old(self).spec_quest_progress(),
            final(self).spec_completed() == old(self).spec_completed(),
            final(self).inventory@ == old(self).inventory@,
            final(self).bag@ == old(self).bag@,
            final(self).level == old(self).level,
            final(self).experience == old(self).experience,
            final(self).crafts_completed == old(self).crafts_completed,
            final(self).coordinates == old(self).coordinates,
    {
        let newly_learned = !self.knows_name(recipe.name());
        if newly_learned {
            let ghost before = self.recipes@;
            let ghost rv = recipe@;
            self.recipes.push(recipe);
            assert(self.recipes@.map_values(|x: Recipe| x@) =~= before.map_values(|x: Recipe| x@).push(rv));
        }
        newly_learned
    }

    /// Marks the book recipe with the given name as known. Returns `false`
    /// for a name the book doesn't have.
    pub fn grant_recipe(&mut self, name: &str) -> (r: bool)
        ensures
            r == exists|i: int| 0 <= i < recipe_book().len() && #[trigger] recipe_book()[i].name == name@,
            r && !names_of(old(self).spec_recipes()).contains(name@) ==> (exists|i: int|
                0 <= i < recipe_book().len() && #[trigger] recipe_book()[i].name == name@
                    && (forall|j: int| 0 <= j < i ==> (#[trigger] recipe_book()[j]).name != name@)
                    && final(self).spec_recipes() == old(self).spec_recipes().push(recipe_book()[i])),
            !(r && !names_of(old(self).spec_recipes()).contains(name@)) ==> final(self).spec_recipes() == old(self).spec_recipes(),
            final(self).spec_open_quest() == old(self).spec_open_quest(),
            final(self).spec_quest_progress() == old(self).spec_quest_progress(),
            final(self).spec_completed() == old(self).spec_completed(),
            final(self).inventory@ == old(self).inventory@,
            final(self).bag@ == old(self).bag@,
            final(self).level == old(self).level,
            final(self).experience == old(self).experience,
            final(self).crafts_completed == old(self).crafts_completed,
            final(self).coordinates == old(self).coordinates,
    {
        match recipe_named(name) {
            Some(recipe) => {
                self.learn_recipe(recipe);
                true
            },
            None => false,
        }
    }

    /// The known recipe with the given name, if any.
    pub fn find_known_recipe(&self, name: &str) -> (r: Option<Recipe>)
        ensures
            match r {
                Some(rec) => exists|i: int|
                    0 <= i < self.spec_recipes().len() && self.spec_recipes()[i] == rec@
                        && rec@.name == name@
                        && forall|j: int| 0 <= j < i ==> (#[trigger] self.spec_recipes()[j]).name != name@,
                None => !names_of(self.spec_recipes()).contains(name@),
            },
    {
        let mut i: usize = 0;
        while i < self.recipes.len()
            invariant
                i <= self.recipes@.len(),
                forall|j: int| 0 <= j < i ==> (#[trigger] self.recipes@[j])@.name != name@,
            decreases self.recipes.len() - i,
        {
            if str_eq(self.recipes[i].name(), name) {
                let found = self.recipes[i].clone();
                assert(self.spec_recipes()[i as int] == found@);
                return Some(found);
            }
            i = i + 1;
        }
        assert(!names_of(self.spec_recipes()).contains(name@)) by {
            if names_of(self.spec_recipes()).contains(name@) {
                let j = choose|j: int| 0 <= j < names_of(self.spec_recipes()).len() && names_of(self.spec_recipes())[j] == name@;
                assert(self.recipes@[j]@.name == name@);
            }
        }
        None
    }
}


/// `m` with every `(item, amount)` of `items` added, in order.
pub open spec fn add_all_map(m: Map<Item, u32>, items: Seq<(Item, u32)>) -> Map<Item, u32>
    decreases items.len(),
{
    if items.len() == 0 {
        m
    } else {
        add_map(add_all_map(m, items.drop_last()), items.last().0, items.last().1)
    }
}

/// How many of `item` the entries of `items` ask for, all told.
pub open spec fn needed_of(items: Seq<(Item, u32)>, item: Item) -> nat
    decreases items.len(),
{
    if items.len() == 0 {
        0
    } else {
        needed_of(items.drop_last(), item) + if items.last().0 == item { items.last().1 as nat } else { 0 }
    }
}

/// Entry `k` of `items` asks for more of its item than storage and bag have
/// left once the entries before it are served.
pub open spec fn short_at(p: Player, items: Seq<(Item, u32)>, k: int) -> bool {
    p.combined_of(items[k].0) < needed_of(items.take(k + 1), items[k].0)
}

/// The first entry of `items`, from `k` on, that is short.
pub open spec fn first_short_from(p: Player, items: Seq<(Item, u32)>, k: int) -> Option<int>
    decreases items.len() - k,
{
    if k < 0 || k >= items.len() {
        None
    } else if short_at(p, items, k) {
        Some(k)
    } else {
        first_short_from(p, items, k + 1)
    }
}

/// What entry `k` asks for is what the entries before it ask for of its
/// item, plus its own amount.
pub proof fn lemma_needed_step(items: Seq<(Item, u32)>, k: int, i: Item)
    requires
        0 <= k < items.len(),
    ensures
        needed_of(items.take(k + 1), i) == needed_of(items.take(k), i) + if items[k].0 == i { items[k].1 as nat } else { 0 },
{
    assert(items.take(k + 1).drop_last() =~= items.take(k));
}

/// Served up to `k`, the entries before `k` ask for no more of any item
/// than storage and bag hold.
pub proof fn lemma_needed_covered(p: Player, items: Seq<(Item, u32)>, k: int, i: Item)
    requires
        0 <= k <= items.len(),
        forall|j: int| 0 <= j < k ==> !short_at(p, items, j),
    ensures
        needed_of(items.take(k), i) <= p.combined_of(i),
    decreases k,
{
    if k == 0 {
        assert(items.take(0) =~= Seq::<(Item, u32)>::empty());
    } else {
        lemma_needed_covered(p, items, k - 1, i);
        lemma_needed_step(items, k - 1, i);
        assert(!short_at(p, items, k - 1));
    }
}

/// Entries asking for an item only add to it: a prefix asks for no more.
pub proof fn lemma_needed_prefix(items: Seq<(Item, u32)>, j: int, k: int, i: Item)
    requires
        0 <= j <= k <= items.len(),
    ensures
        needed_of(items.take(j), i) <= needed_of(items.take(k), i),
    decreases k - j,
{
    if j < k {
        lemma_needed_prefix(items, j, k - 1, i);
        lemma_needed_step(items, k - 1, i);
    }
}

/// The first short entry is `k` when `k` is short and none before it is.
pub proof fn lemma_first_short_at(p: Player, items: Seq<(Item, u32)>, from: int, k: int)
    requires
        0 <= from <= k < items.len(),
        short_at(p, items, k),
        forall|j: int| from <= j < k ==> !short_at(p, items, j),
    ensures
        first_short_from(p, items, from) == Some(k),
    decreases k - from,
{
    if from < k {
        lemma_first_short_at(p, items, from + 1, k);
    }
}

/// No entry is short when none from `from` on is.
pub proof fn lemma_first_short_none(p: Player, items: Seq<(Item, u32)>, from: int)
    requires
        0 <= from,
        forall|j: int| from <= j < items.len() ==> !short_at(p, items, j),
    ensures
        first_short_from(p, items, from) == None::<int>,
    decreases items.len() - from,
{
    if from < items.len() {
        lemma_first_short_none(p, items, from + 1);
    }
}

/// The storage map after drawing `amount` of `item` from storage first and
/// the bag for the remainder: the storage part.
pub open spec fn storage_after_draw(storage: Map<Item, u32>, item: Item, amount: u32) -> Map<Item, u32> {
    spend_map(storage, item, min_nat(count_in(storage, item), amount as nat) as u32)
}

/// The bag part of drawing `amount` of `item` from storage first.
pub open spec fn bag_after_draw(storage: Map<Item, u32>, bag: Map<Item, u32>, item: Item, amount: u32) -> Map<Item, u32> {
    let rest = amount - min_nat(count_in(storage, item), amount as nat);
    if rest > 0 {
        spend_map(bag, item, rest as u32)
    } else {
        bag
    }
}

/// Storage and bag after drawing every `(item, amount)` of `items` in turn,
/// each from storage first and the bag for the remainder.
pub open spec fn draw_all(storage: Map<Item, u32>, bag: Map<Item, u32>, items: Seq<(Item, u32)>) -> (Map<Item, u32>, Map<Item, u32>)
    decreases items.len(),
{
    if items.len() == 0 {
        (storage, bag)
    } else {
        let (s, b) = draw_all(storage, bag, items.drop_last());
        let (i, a) = items.last();
        (storage_after_draw(s, i, a), bag_after_draw(s, b, i, a))
    }
}

pub open spec fn min_nat(a: nat, b: nat) -> nat {
    if a <= b { a } else { b }
}

/// Adding a list to a map raises each count by what the list holds of it,
/// where that fits.
pub proof fn lemma_add_all_exact(m: Map<Item, u32>, items: Seq<(Item, u32)>)
    requires
        forall|j: Item| #[trigger] count_in(m, j) + needed_of(items, j) <= u32::MAX,
    ensures
        forall|j: Item| #[trigger] count_in(add_all_map(m, items), j) == count_in(m, j) + needed_of(items, j),
    decreases items.len(),
{
    if items.len() > 0 {
        let d = items.drop_last();
        assert forall|j: Item| #[trigger] count_in(m, j) + needed_of(d, j) <= u32::MAX by {
            assert(count_in(m, j) + needed_of(items, j) <= u32::MAX);
        }
        lemma_add_all_exact(m, d);
        let (it, a) = items.last();
        let mm = add_all_map(m, d);
        assert forall|j: Item| #[trigger] count_in(add_all_map(m, items), j) == count_in(m, j) + needed_of(items, j) by {
            assert(needed_of(items, j) == needed_of(d, j) + if it == j { a as nat } else { 0 });
            assert(count_in(mm, j) == count_in(m, j) + needed_of(d, j));
            assert(count_in(m, j) + needed_of(items, j) <= u32::MAX);
            assert(add_all_map(m, items) == add_map(mm, it, a));
        }
    }
}

impl Player {
    /// The world coordinates one step in `dir` from where the player stands.
    pub fn coordinates_after(&self, dir: Direction) -> (r: (i32, i32))
        requires
            i32::MIN < self.coordinates.0 < i32::MAX,
            i32::MIN < self.coordinates.1 < i32::MAX,
        ensures
            r.0 == self.coordinates.0 + direction_delta(dir).0,
            r.1 == self.coordinates.1 + direction_delta(dir).1,
    {
        let (dx, dy) = dir.delta();
        (self.coordinates.0 + dx, self.coordinates.1 + dy)
    }

    /// Adds `amount` of `item` to storage.
    pub fn add_to_inventory(&mut self, item: Item, amount: u32)
        requires
            old(self).inventory.count_of(item) + amount <= u32::MAX,
        ensures
            final(self).inventory@ == add_map(old(self).inventory@, item, amount),
            final(self).bag@ == old(self).bag@,
            final(self).same_standing(old(self)),
    {
        self.inventory.add(item, amount);
    }

    /// Adds every `(item, amount)` of `items` to storage.
    pub fn add_all_to_inventory(&mut self, items: &Vec<(Item, u32)>)
        requires
            forall|i: Item| #[trigger] old(self).inventory.count_of(i) + needed_of(items@, i) <= u32::MAX,
        ensures
            final(self).inventory@ == add_all_map(old(self).inventory@, items@),
            final(self).bag@ == old(self).bag@,
            final(self).same_standing(old(self)),
    {
        let mut k: usize = 0;
        while k < items.len()
            invariant
                k <= items@.len(),
                forall|i: Item| #[trigger] old(self).inventory.count_of(i) + needed_of(items@, i) <= u32::MAX,
                self.inventory@ == add_all_map(old(self).inventory@, items@.subrange(0, k as int)),
                self.bag@ == old(self).bag@,
                self.same_standing(old(self)),
            decreases items.len() - k,
        {
            let (item, amount) = items[k];
            proof {
                let pre = items@.subrange(0, k as int);
                assert(pre =~= items@.take(k as int));
                assert forall|j: Item| #[trigger] count_in(old(self).inventory@, j) + needed_of(pre, j) <= u32::MAX by {
                    lemma_needed_prefix(items@, k as int, items@.len() as int, j);
                    assert(items@.take(items@.len() as int) =~= items@);
                    assert(old(self).inventory.count_of(j) + needed_of(items@, j) <= u32::MAX);
                }
                lemma_add_all_exact(old(self).inventory@, pre);
                lemma_needed_step(items@, k as int, item);
                lemma_needed_prefix(items@, k as int + 1, items@.len() as int, item);
                assert(items@.take(items@.len() as int) =~= items@);
                assert(old(self).inventory.count_of(item) + needed_of(items@, item) <= u32::MAX);
                assert(items@.subrange(0, k as int + 1).drop_last() =~= items@.subrange(0, k as int));
            }
            self.inventory.add(item, amount);
            k = k + 1;
        }
        assert(items@.subrange(0, items@.len() as int) =~= items@);
    }

    /// Grants a quest reward: experience, and items into storage.
    pub fn grant_reward(&mut self, xp: u32, items: &Vec<(Item, u32)>)
        requires
            old(self).experience + xp <= u32::MAX,
            forall|i: Item| #[trigger] old(self).inventory.count_of(i) + needed_of(items@, i) <= u32::MAX,
        ensures
            final(self).experience == old(self).experience + xp,
            final(self).inventory@ == add_all_map(old(self).inventory@, items@),
            final(self).bag@ == old(self).bag@,
            final(self).level == old(self).level,
            final(self).crafts_completed == old(self).crafts_completed,
            final(self).coordinates == old(self).coordinates,
            final(self).spec_recipes() == old(self).spec_recipes(),
            final(self).spec_open_quest() == old(self).spec_open_quest(),
            final(self).spec_quest_progress() == old(self).spec_quest_progress(),
            final(self).spec_completed() == old(self).spec_completed(),
    {
        self.experience = self.experience + xp;
        self.add_all_to_inventory(items);
    }

    /// Counts one more successful craft; every tenth grants a point of
    /// experience.
    pub fn record_successful_craft(&mut self)
        requires
            old(self).crafts_completed < u32::MAX,
            (old(self).crafts_completed + 1) % 10 == 0 ==> old(self).experience < u32::MAX,
        ensures
            final(self).crafts_completed == old(self).crafts_completed + 1,
            final(self).experience == old(self).experience + if final(self).crafts_completed % 10 == 0 { 1int } else { 0 },
            final(self).inventory@ == old(self).inventory@,
            final(self).bag@ == old(self).bag@,
            final(self).level == old(self).level,
            final(self).coordinates == old(self).coordinates,
            final(self).spec_recipes() == old(self).spec_recipes(),
            final(self).spec_open_quest() == old(self).spec_open_quest(),
            final(self).spec_quest_progress() == old(self).spec_quest_progress(),
            final(self).spec_completed() == old(self).spec_completed(),
    {
        self.crafts_completed = self.crafts_completed + 1;
        if self.crafts_completed % 10 == 0 {
            self.experience = self.experience + 1;
        }
    }

    /// How many of `item` are in storage.
    pub fn inventory_count(&self, item: Item) -> (r: u32)
        ensures
            r == self.inventory.count_of(item),
    {
        self.inventory.count(item)
    }

    /// How many of `item` are in the bag.
    pub fn bag_count(&self, item: Item) -> (r: u32)
        ensures
            r == self.bag.count_of(item),
    {
        self.bag.count(item)
    }

    /// Whether the bag holds at least one `item`.
    pub fn has_item_in_bag(&self, item: Item) -> (r: bool)
        ensures
            r == (self.bag.count_of(item) > 0),
    {
        self.bag.count(item) > 0
    }

    /// The number of items in the bag, summed over every kind.
    pub fn bag_total(&self) -> (r: u32)
        requires
            self.bag.spec_total() <= u32::MAX,
        ensures
            r == self.bag.spec_total(),
    {
        self.bag.total() as u32
    }

    /// `(items carried in the bag, the bag's capacity)`.
    pub fn equipment_progress(&self) -> (r: (u32, u32))
        requires
            self.bag.spec_total() <= u32::MAX,
        ensures
            r == (self.bag.spec_total() as u32, BAG_CAPACITY),
    {
        (self.bag_total(), BAG_CAPACITY)
    }

    /// Puts `amount` of `item` in the bag if it fits within the capacity.
    /// Returns whether it did; an amount that doesn't fit is rejected
    /// entirely, not partly added.
    pub fn add_to_bag(&mut self, item: Item, amount: u32) -> (r: bool)
        ensures
            r == (old(self).bag.spec_total() + amount <= BAG_CAPACITY),
            final(self).bag@ == if r { add_map(old(self).bag@, item, amount) } else { old(self).bag@ },
            final(self).bag.spec_total() == old(self).bag.spec_total() + if r { amount as int } else { 0 },
            final(self).inventory@ == old(self).inventory@,
            final(self).same_standing(old(self)),
    {
        self.bag.check_count_le_total(item);
        let total = self.bag.total();
        if total + amount as u64 > BAG_CAPACITY as u64 {
            return false;
        }
        self.bag.add(item, amount);
        true
    }

    /// Removes `amount` of `item` from storage, dropping the entry once it
    /// reaches zero. Does nothing when storage has no `item` entry.
    pub fn spend(&mut self, item: Item, amount: u32)
        requires
            old(self).inventory@.contains_key(item) ==> amount <= old(self).inventory@[item],
        ensures
            final(self).inventory@ == spend_map(old(self).inventory@, item, amount),
            final(self).bag@ == old(self).bag@,
            final(self).same_standing(old(self)),
    {
        self.inventory.spend(item, amount);
    }

    /// Removes `amount` of `item` from the bag, dropping the entry once it
    /// reaches zero. Does nothing when the bag has no `item` entry.
    pub fn spend_from_bag(&mut self, item: Item, amount: u32)
        requires
            old(self).bag@.contains_key(item) ==> amount <= old(self).bag@[item],
        ensures
            final(self).bag@ == spend_map(old(self).bag@, item, amount),
            final(self).bag.spec_total() == old(self).bag.spec_total() - if old(self).bag@.contains_key(item) { amount as int } else { 0 },
            final(self).inventory@ == old(self).inventory@,
            final(self).same_standing(old(self)),
    {
        self.bag.spend(item, amount);
    }

    /// Storage and bag counts of `item` added together.
    pub fn combined_count(&self, item: Item) -> (r: u64)
        ensures
            r == self.combined_of(item),
    {
        self.inventory.count(item) as u64 + self.bag.count(item) as u64
    }

    /// Whether storage or the bag holds at least one `item`.
    pub fn has_item_combined(&self, item: Item) -> (r: bool)
        ensures
            r == (self.combined_of(item) > 0),
    {
        self.combined_count(item) > 0
    }

    /// Moves `amount` of `item` from the bag to storage. Returns `false`, and
    /// changes nothing, if the bag doesn't hold `amount`.
    pub fn transfer_to_storage(&mut self, item: Item, amount: u32) -> (r: bool)
        requires
            old(self).inventory.count_of(item) + amount <= u32::MAX,
        ensures
            r == (old(self).bag.count_of(item) >= amount),
            r ==> final(self).bag@ == spend_map(old(self).bag@, item, amount),
            r ==> final(self).inventory@ == add_map(old(self).inventory@, item, amount),
            !r ==> final(self).bag@ == old(self).bag@ && final(self).inventory@ == old(self).inventory@,
            final(self).bag.spec_total() == old(self).bag.spec_total() - if r { amount as int } else { 0 },
            final(self).same_standing(old(self)),
    {
        if self.bag.count(item) < amount {
            return false;
        }
        self.bag.spend(item, amount);
        self.inventory.add(item, amount);
        true
    }

    /// Moves `amount` of `item` from storage to the bag. Returns `false`, and
    /// changes nothing, if storage doesn't hold `amount` or the bag has no
    /// room for it.
    pub fn transfer_to_bag(&mut self, item: Item, amount: u32) -> (r: bool)
        ensures
            r == (old(self).inventory.count_of(item) >= amount && old(self).bag.spec_total() + amount <= BAG_CAPACITY),
            r ==> final(self).inventory@ == spend_map(old(self).inventory@, item, amount),
            r ==> final(self).bag@ == add_map(old(self).bag@, item, amount),
            !r ==> final(self).bag@ == old(self).bag@ && final(self).inventory@ == old(self).inventory@,
            final(self).bag.spec_total() == old(self).bag.spec_total() + if r { amount as int } else { 0 },
            final(self).same_standing(old(self)),
    {
        if self.inventory.count(item) < amount {
            return false;
        }
        if !self.add_to_bag(item, amount) {
            return false;
        }
        self.inventory.spend(item, amount);
        true
    }

    /// Draws `amount` of `item` from storage first and the bag for any
    /// remainder.
    pub fn spend_storage_then_bag(&mut self, item: Item, amount: u32)
        requires
            old(self).combined_of(item) >= amount,
        ensures
            final(self).inventory@ == storage_after_draw(old(self).inventory@, item, amount),
            final(self).bag@ == bag_after_draw(old(self).inventory@, old(self).bag@, item, amount),
            final(self).combined_of(item) == old(self).combined_of(item) - amount,
            forall|j: Item| j != item ==> #[trigger] final(self).combined_of(j) == old(self).combined_of(j),
            final(self).bag.spec_total() <= old(self).bag.spec_total(),
            final(self).same_standing(old(self)),
    {
        let stored = self.inventory.count(item);
        let from_storage = if stored < amount { stored } else { amount };
        self.inventory.spend(item, from_storage);
        let rest = amount - from_storage;
        if rest > 0 {
            self.bag.spend(item, rest);
        }
    }

    /// Draws every `(item, amount)` of `items` in turn, storage first. No
    /// entry may be short once the entries before it are served.
    pub fn spend_all_storage_then_bag(&mut self, items: &Vec<(Item, u32)>)
        requires
            forall|k: int| 0 <= k < items@.len() ==> !short_at(*old(self), items@, k),
        ensures
            (final(self).inventory@, final(self).bag@) == draw_all(old(self).inventory@, old(self).bag@, items@),
            forall|j: Item| #[trigger] final(self).combined_of(j) == old(self).combined_of(j) - needed_of(items@, j),
            final(self).bag.spec_total() <= old(self).bag.spec_total(),
            final(self).same_standing(old(self)),
    {
        let mut k: usize = 0;
        while k < items.len()
            invariant
                k <= items@.len(),
                forall|a: int| 0 <= a < items@.len() ==> !short_at(*old(self), items@, a),
                forall|j: Item| #[trigger] self.combined_of(j) == old(self).combined_of(j) - needed_of(items@.take(k as int), j),
                self.same_standing(old(self)),
                self.bag.spec_total() <= old(self).bag.spec_total(),
                (self.inventory@, self.bag@) == draw_all(old(self).inventory@, old(self).bag@, items@.subrange(0, k as int)),
            decreases items.len() - k,
        {
            let (item, amount) = items[k];
            proof {
                lemma_needed_covered(*old(self), items@, k as int, item);
                lemma_needed_step(items@, k as int, item);
                assert(!short_at(*old(self), items@, k as int));
                assert(items@.subrange(0, k as int + 1).drop_last() =~= items@.subrange(0, k as int));
                assert forall|j: Item| #[trigger] old(self).combined_of(j) >= needed_of(items@.take(k as int), j) by {
                    lemma_needed_covered(*old(self), items@, k as int, j);
                }
            }
            self.spend_storage_then_bag(item, amount);
            proof {
                assert forall|j: Item| #[trigger] self.combined_of(j) == old(self).combined_of(j) - needed_of(items@.take(k + 1), j) by {
                    lemma_needed_step(items@, k as int, j);
                    lemma_needed_covered(*old(self), items@, k as int, j);
                }
            }
            k = k + 1;
        }
        assert(items@.subrange(0, items@.len() as int) =~= items@);
        assert(items@.take(items@.len() as int) =~= items@);
    }

    /// The first entry of `items` that asks for more than storage and bag
    /// have left once the entries before it are served, as `(item, what is
    /// left of it, what the entry asks for)`.
    pub fn first_shortage(&self, items: &[(Item, u32)]) -> (r: Option<(Item, u32, u32)>)
        ensures
            match r {
                Some((item, available, needed)) => exists|k: int|
                    0 <= k < items@.len() && items@[k] == (item, needed)
                        && short_at(*self, items@, k)
                        && available == self.combined_of(item) - needed_of(items@.take(k), item)
                        && forall|j: int| 0 <= j < k ==> !short_at(*self, items@, j),
                None => forall|k: int| 0 <= k < items@.len() ==> !short_at(*self, items@, k),
            },
    {
        let mut k: usize = 0;
        while k < items.len()
            invariant
                k <= items@.len(),
                forall|j: int| 0 <= j < k ==> !short_at(*self, items@, j),
            decreases items.len() - k,
        {
            let (item, needed) = items[k];
            let available = self.combined_count(item);
            let mut used: u64 = 0;
            let mut j: usize = 0;
            while j < k
                invariant
                    j <= k < items@.len(),
                    item == items@[k as int].0,
                    forall|a: int| 0 <= a < k ==> !short_at(*self, items@, a),
                    used == needed_of(items@.take(j as int), item),
                    available == self.combined_of(item),
                decreases k - j,
            {
                proof {
                    lemma_needed_step(items@, j as int, item);
                    lemma_needed_prefix(items@, j as int + 1, k as int, item);
                    lemma_needed_covered(*self, items@, k as int, item);
                }
                if items[j].0 == item {
                    used = used + items[j].1 as u64;
                }
                j = j + 1;
            }
            proof {
                lemma_needed_covered(*self, items@, k as int, item);
                lemma_needed_step(items@, k as int, item);
            }
            if available - used < needed as u64 {
                return Some((item, (available - used) as u32, needed));
            }
            k = k + 1;
        }
        None
    }

    /// The first of `tools` that storage holds none of. Tools are used where
    /// they are kept, so the bag doesn't count.
    pub fn first_missing_tool(&self, tools: &Vec<Item>) -> (r: Option<Item>)
        ensures
            match r {
                Some(tool) => exists|k: int|
                    0 <= k < tools@.len() && tools@[k] == tool && self.inventory.count_of(tool) == 0
                        && forall|j: int| 0 <= j < k ==> self.inventory.count_of(#[trigger] tools@[j]) > 0,
                None => forall|k: int| 0 <= k < tools@.len() ==> self.inventory.count_of(#[trigger] tools@[k]) > 0,
            },
    {
        let mut k: usize = 0;
        while k < tools.len()
            invariant
                k <= tools@.len(),
                forall|j: int| 0 <= j < k ==> self.inventory.count_of(#[trigger] tools@[j]) > 0,
            decreases tools.len() - k,
        {
            if self.inventory.count(tools[k]) == 0 {
                return Some(tools[k]);
            }
            k = k + 1;
        }
        None
    }
}

impl Default for Player {
    fn default() -> (r: Player)
        ensures
            r.is_fresh(),
            r.level == 1,
            r.experience == 0,
            r.crafts_completed == 0,
            r.coordinates == (0i32, 0i32),
            r.inventory@ == Map::<Item, u32>::empty(),
            r.bag@ == Map::<Item, u32>::empty(),
            r.bag.spec_total() == 0,
            r.spec_recipes() == Seq::<RecipeView>::empty(),
            r.spec_open_quest() == None::<QuestID>,
            r.spec_quest_progress() == 0,
            r.spec_completed() == Seq::<QuestID>::empty(),
    {
        let r = Player {
            level: 1,
            experience: 0,
            crafts_completed: 0,
            coordinates: (0, 0),
            inventory: ItemCounts::new(),
            bag: ItemCounts::new(),
            recipes: Vec::new(),
            open_quest: None,
            quest_progress: 0,
            quests_completed: Vec::new(),
        };
        assert(r.spec_recipes() =~= Seq::<RecipeView>::empty());
        r
    }
}

} // verus!
