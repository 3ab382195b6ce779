//! The Craft panel: every known recipe with what it takes and whether the
//! player can craft it now.

use vstd::prelude::*;
use crate::game::{Item, Player};
use crate::game::recipe::RecipeView;

verus! {

/// One consumable of a recipe: how many the player has (storage and bag
/// together) and how many it takes.
pub struct CraftConsumable {
    pub item: Item,
    pub have: u32,
    pub need: u32,
}

impl CraftConsumable {
    /// Whether the player has enough.
    pub fn met(&self) -> (r: bool)
        ensures
            r == (self.have >= self.need),
    {
        self.have >= self.need
    }
}

/// One tool of a recipe, and whether storage holds it.
pub struct CraftTool {
    pub item: Item,
    pub present: bool,
}

/// One known recipe as the Craft panel shows it.
pub struct CraftOption {
    pub id: &'static str,
    pub output: Item,
    pub consumables: Vec<CraftConsumable>,
    pub tools: Vec<CraftTool>,
    pub enabled: bool,
}

/// `o` shows the recipe `r` for `p`: every consumable with the combined
/// count, every tool with whether storage holds it, and enabled exactly
/// when all of them are met.
pub open spec fn shows_recipe(o: &CraftOption, r: RecipeView, p: &Player) -> bool {
    &&& o.id@ == r.name
    &&& o.output == r.output
    &&& o.consumables@.len() == r.consumables.len()
    &&& forall|k: int| 0 <= k < r.consumables.len() ==> {
        let c = #[trigger] o.consumables@[k];
        &&& c.item == r.consumables[k].0
        &&& c.need == r.consumables[k].1
        &&& c.have == p.combined_of(c.item)
    }
    &&& o.tools@.len() == r.tools.len()
    &&& forall|k: int| 0 <= k < r.tools.len() ==> {
        let t = #[trigger] o.tools@[k];
        &&& t.item == r.tools[k]
        &&& t.present == (p.inventory.count_of(t.item) > 0)
    }
    &&& o.enabled == ((forall|k: int| 0 <= k < r.consumables.len() ==> p.combined_of((#[trigger] r.consumables[k]).0) >= r.consumables[k].1)
        && (forall|k: int| 0 <= k < r.tools.len() ==> p.inventory.count_of(#[trigger] r.tools[k]) > 0))
}

/// One option per known recipe, in discovery order.
pub fn options(player: &Player) -> (r: Vec<CraftOption>)
    requires
        forall|i: Item| #[trigger] player.inventory.count_of(i) + player.bag.count_of(i) <= u32::MAX,
    ensures
        r@.len() == player.spec_recipes().len(),
        forall|i: int| 0 <= i < r@.len() ==> shows_recipe(#[trigger] &r@[i], player.spec_recipes()[i], player),
{
    let recipes = player.known_recipes();
    let mut r: Vec<CraftOption> = Vec::new();
    let mut i: usize = 0;
    while i < recipes.len()
        invariant
            i <= recipes@.len(),
            recipes@.map_values(|x: crate::game::Recipe| x@) == player.spec_recipes(),
            forall|it: Item| #[trigger] player.inventory.count_of(it) + player.bag.count_of(it) <= u32::MAX,
            r@.len() == i,
            forall|j: int| 0 <= j < i ==> shows_recipe(#[trigger] &r@[j], player.spec_recipes()[j], player),
        decreases recipes.len() - i,
    {
        let recipe = &recipes[i];
        let ghost rv = player.spec_recipes()[i as int];
        assert(recipe@ == rv);
        let cons = recipe.consumables();
        let mut consumables: Vec<CraftConsumable> = Vec::new();
        let mut all_met = true;
        let mut k: usize = 0;
        while k < cons.len()
            invariant
                k <= cons@.len(),
                cons@ == rv.consumables,
                forall|it: Item| #[trigger] player.inventory.count_of(it) + player.bag.count_of(it) <= u32::MAX,
                consumables@.len() == k,
                forall|j: int| 0 <= j < k ==> {
                    let c = #[trigger] consumables@[j];
                    &&& c.item == rv.consumables[j].0
                    &&& c.need == rv.consumables[j].1
                    &&& c.have == player.combined_of(c.item)
                },
                all_met == forall|j: int| 0 <= j < k ==> player.combined_of((#[trigger] rv.consumables[j]).0) >= rv.consumables[j].1,
            decreases cons.len() - k,
        {
            let (item, need) = cons[k];
            proof {
                assert(player.inventory.count_of(item) + player.bag.count_of(item) <= u32::MAX);
            }
            let have = player.inventory.count(item) + player.bag.count(item);
            if have < need {
                all_met = false;
            }
            consumables.push(CraftConsumable { item, have, need });
            k = k + 1;
        }
        let tl = recipe.tools();
        let mut tools: Vec<CraftTool> = Vec::new();
        let mut all_present = true;
        let mut k: usize = 0;
        while k < tl.len()
            invariant
                k <= tl@.len(),
                tl@ == rv.tools,
                tools@.len() == k,
                forall|j: int| 0 <= j < k ==> {
                    let t = #[trigger] tools@[j];
                    &&& t.item == rv.tools[j]
                    &&& t.present == (player.inventory.count_of(t.item) > 0)
                },
                all_present == forall|j: int| 0 <= j < k ==> player.inventory.count_of(#[trigger] rv.tools[j]) > 0,
            decreases tl.len() - k,
        {
            let item = tl[k];
            let present = player.inventory.count(item) > 0;
            if !present {
                all_present = false;
            }
            tools.push(CraftTool { item, present });
            k = k + 1;
        }
        let option = CraftOption {
            id: recipe.name(),
            output: recipe.output(),
            consumables,
            tools,
            enabled: all_met && all_present,
        };
        r.push(option);
        proof {
            assert(shows_recipe(&r@[i as int], rv, player));
        }
        i = i + 1;
    }
    r
}

} // verus!
