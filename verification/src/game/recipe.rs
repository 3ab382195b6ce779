//! The recipe book: what can be built from what, and what can be taken apart.

use vstd::prelude::*;
use super::item::Item;
use crate::text::str_eq;
use crate::seqs::copy_vec;

verus! {

/// Which way a recipe runs: whether its consumables can be assembled into the
/// output, taken back apart from it, or both.
#[derive(Copy, Clone, Debug, PartialEq, Eq, Structural)]
pub enum RecipeFlow {
    /// Build the output from the consumables; it can't be taken back apart.
    CraftOnly,
    /// Build it, and also take it apart to recover the consumables.
    Both,
    /// Only take it apart: a scavenged object whose parts don't reassemble.
    DisassembleOnly,
}

/// One entry of the recipe book.
#[derive(Debug)]
pub struct Recipe {
    name: &'static str,
    consumables: Vec<(Item, u32)>,
    tools: Vec<Item>,
    output: Item,
    flow: RecipeFlow,
}

/// The mathematical content of a recipe.
pub struct RecipeView {
    pub name: Seq<char>,
    pub consumables: Seq<(Item, u32)>,
    pub tools: Seq<Item>,
    pub output: Item,
    pub flow: RecipeFlow,
}

impl RecipeView {
    /// Whether the output can be assembled from the consumables.
    pub open spec fn craftable(self) -> bool {
        self.flow == RecipeFlow::CraftOnly || self.flow == RecipeFlow::Both
    }

    /// Whether the output can be taken apart into the consumables.
    pub open spec fn disassemblable(self) -> bool {
        self.flow == RecipeFlow::Both || self.flow == RecipeFlow::DisassembleOnly
    }
}

impl View for Recipe {
    type V = RecipeView;

    closed spec fn view(&self) -> RecipeView {
        RecipeView {
            name: self.name@,
            consumables: self.consumables@,
            tools: self.tools@,
            output: self.output,
            flow: self.flow,
        }
    }
}

impl Clone for Recipe {
    fn clone(&self) -> (r: Recipe)
        ensures
            r@ == self@,
    {
        let r = Recipe {
            name: self.name,
            consumables: copy_vec(&self.consumables),
            tools: copy_vec(&self.tools),
            output: self.output,
            flow: self.flow,
        };
        assert(r.consumables@ =~= self.consumables@);
        assert(r.tools@ =~= self.tools@);
        r
    }
}

impl Recipe {
    pub fn name(&self) -> (r: &'static str)
        ensures
            r@ == self@.name,
    {
        self.name
    }

    /// The items consumed when the recipe runs.
    pub fn consumables(&self) -> (r: &Vec<(Item, u32)>)
        ensures
            r@ == self@.consumables,
    {
        &self.consumables
    }

    /// Items the player must hold to run the recipe; none are consumed.
    pub fn tools(&self) -> (r: &Vec<Item>)
        ensures
            r@ == self@.tools,
    {
        &self.tools
    }

    pub fn output(&self) -> (r: Item)
        ensures
            r == self@.output,
    {
        self.output
    }

    /// Whether the output can be assembled from the consumables (drives
    /// crafting and experiment discovery).
    pub fn craftable(&self) -> (r: bool)
        ensures
            r == self@.craftable(),
    {
        matches!(self.flow, RecipeFlow::CraftOnly | RecipeFlow::Both)
    }

    /// Whether the output can be taken apart to recover the consumables
    /// (drives disassembly).
    pub fn disassemblable(&self) -> (r: bool)
        ensures
            r == self@.disassemblable(),
    {
        matches!(self.flow, RecipeFlow::Both | RecipeFlow::DisassembleOnly)
    }

    /// A recipe with the given parts.
    pub fn new(
        name: &'static str,
        consumables: Vec<(Item, u32)>,
        tools: Vec<Item>,
        output: Item,
        flow: RecipeFlow,
    ) -> (r: Recipe)
        ensures
            r@ == (RecipeView {
                name: name@,
                consumables: consumables@,
                tools: tools@,
                output,
                flow,
            }),
    {
        Recipe { name, consumables, tools, output, flow }
    }
}

/// The recipe book, in its fixed order.
pub open spec fn recipe_book() -> Seq<RecipeView> {
    seq![
        RecipeView { name: "Arrow"@, consumables: seq![(Item::Branch, 1u32)], tools: seq![Item::StoneAxe], output: Item::Arrow, flow: RecipeFlow::CraftOnly },
        RecipeView { name: "Wooden Bow"@, consumables: seq![(Item::Branch, 1u32), (Item::Cord, 1u32)], tools: seq![Item::StoneAxe], output: Item::WoodenBow, flow: RecipeFlow::Both },
        RecipeView { name: "Cord"@, consumables: seq![(Item::Vine, 2u32)], tools: seq![], output: Item::Cord, flow: RecipeFlow::CraftOnly },
        RecipeView { name: "Stone Axe"@, consumables: seq![(Item::Branch, 1u32), (Item::Stone, 1u32), (Item::Cord, 1u32)], tools: seq![], output: Item::StoneAxe, flow: RecipeFlow::Both },
        RecipeView { name: "Coil"@, consumables: seq![(Item::CopperWire, 2u32), (Item::PlasticBottle, 1u32)], tools: seq![], output: Item::Coil, flow: RecipeFlow::CraftOnly },
        RecipeView { name: "Metal Detector"@, consumables: seq![(Item::Coil, 1u32), (Item::Pole, 1u32), (Item::Speaker, 1u32), (Item::Microcontroller, 1u32)], tools: seq![], output: Item::MetalDetector, flow: RecipeFlow::Both },
        RecipeView { name: "Solar Charger"@, consumables: seq![(Item::CopperWire, 1u32), (Item::SolarPanel, 1u32), (Item::CircuitBoard, 1u32)], tools: seq![], output: Item::SolarCharger, flow: RecipeFlow::Both },
        RecipeView { name: "Umbrella"@, consumables: seq![(Item::Fabric, 1u32), (Item::Pole, 1u32)], tools: seq![], output: Item::Umbrella, flow: RecipeFlow::DisassembleOnly },
        RecipeView { name: "Electronic Toy"@, consumables: seq![(Item::Battery, 1u32), (Item::Speaker, 1u32)], tools: seq![], output: Item::ElectronicToy, flow: RecipeFlow::DisassembleOnly },
        RecipeView { name: "Bone Needle"@, consumables: seq![(Item::Bone, 1u32)], tools: seq![], output: Item::BoneNeedle, flow: RecipeFlow::CraftOnly },
        RecipeView { name: "Satchel"@, consumables: seq![(Item::Hide, 1u32), (Item::Cord, 1u32)], tools: seq![Item::BoneNeedle], output: Item::Satchel, flow: RecipeFlow::Both },
    ]
}

/// The recipe book, in its fixed order.
pub fn recipes() -> (r: Vec<Recipe>)
    ensures
        r@.len() == recipe_book().len(),
        forall|i: int| 0 <= i < r@.len() ==> #[trigger] r@[i]@ == recipe_book()[i],
{
    let r = vec![
        Recipe::new("Arrow", vec![(Item::Branch, 1)], vec![Item::StoneAxe], Item::Arrow, RecipeFlow::CraftOnly),
        Recipe::new("Wooden Bow", vec![(Item::Branch, 1), (Item::Cord, 1)], vec![Item::StoneAxe], Item::WoodenBow, RecipeFlow::Both),
        Recipe::new("Cord", vec![(Item::Vine, 2)], vec![], Item::Cord, RecipeFlow::CraftOnly),
        Recipe::new("Stone Axe", vec![(Item::Branch, 1), (Item::Stone, 1), (Item::Cord, 1)], vec![], Item::StoneAxe, RecipeFlow::Both),
        Recipe::new("Coil", vec![(Item::CopperWire, 2), (Item::PlasticBottle, 1)], vec![], Item::Coil, RecipeFlow::CraftOnly),
        Recipe::new("Metal Detector", vec![(Item::Coil, 1), (Item::Pole, 1), (Item::Speaker, 1), (Item::Microcontroller, 1)], vec![], Item::MetalDetector, RecipeFlow::Both),
        Recipe::new("Solar Charger", vec![(Item::CopperWire, 1), (Item::SolarPanel, 1), (Item::CircuitBoard, 1)], vec![], Item::SolarCharger, RecipeFlow::Both),
        Recipe::new("Umbrella", vec![(Item::Fabric, 1), (Item::Pole, 1)], vec![], Item::Umbrella, RecipeFlow::DisassembleOnly),
        Recipe::new("Electronic Toy", vec![(Item::Battery, 1), (Item::Speaker, 1)], vec![], Item::ElectronicToy, RecipeFlow::DisassembleOnly),
        Recipe::new("Bone Needle", vec![(Item::Bone, 1)], vec![], Item::BoneNeedle, RecipeFlow::CraftOnly),
        Recipe::new("Satchel", vec![(Item::Hide, 1), (Item::Cord, 1)], vec![Item::BoneNeedle], Item::Satchel, RecipeFlow::Both),
    ];
    assert(r@.len() == recipe_book().len());
    assert(r@[0]@.consumables =~= recipe_book()[0].consumables);
    assert(r@[0]@.tools =~= recipe_book()[0].tools);
    assert(r@[0]@ == recipe_book()[0]);
    assert(r@[1]@.consumables =~= recipe_book()[1].consumables);
    assert(r@[1]@.tools =~= recipe_book()[1].tools);
    assert(r@[1]@ == recipe_book()[1]);
    assert(r@[2]@.consumables =~= recipe_book()[2].consumables);
    assert(r@[2]@.tools =~= recipe_book()[2].tools);
    assert(r@[2]@ == recipe_book()[2]);
    assert(r@[3]@.consumables =~= recipe_book()[3].consumables);
    assert(r@[3]@.tools =~= recipe_book()[3].tools);
    assert(r@[3]@ == recipe_book()[3]);
    assert(r@[4]@.consumables =~= recipe_book()[4].consumables);
    assert(r@[4]@.tools =~= recipe_book()[4].tools);
    assert(r@[4]@ == recipe_book()[4]);
    assert(r@[5]@.consumables =~= recipe_book()[5].consumables);
    assert(r@[5]@.tools =~= recipe_book()[5].tools);
    assert(r@[5]@ == recipe_book()[5]);
    assert(r@[6]@.consumables =~= recipe_book()[6].consumables);
    assert(r@[6]@.tools =~= recipe_book()[6].tools);
    assert(r@[6]@ == recipe_book()[6]);
    assert(r@[7]@.consumables =~= recipe_book()[7].consumables);
    assert(r@[7]@.tools =~= recipe_book()[7].tools);
    assert(r@[7]@ == recipe_book()[7]);
    assert(r@[8]@.consumables =~= recipe_book()[8].consumables);
    assert(r@[8]@.tools =~= recipe_book()[8].tools);
    assert(r@[8]@ == recipe_book()[8]);
    assert(r@[9]@.consumables =~= recipe_book()[9].consumables);
    assert(r@[9]@.tools =~= recipe_book()[9].tools);
    assert(r@[9]@ == recipe_book()[9]);
    assert(r@[10]@.consumables =~= recipe_book()[10].consumables);
    assert(r@[10]@.tools =~= recipe_book()[10].tools);
    assert(r@[10]@ == recipe_book()[10]);
    r
}


/// Whether `items` is exactly a craftable recipe's consumables, in any order.
pub open spec fn matches_items(r: RecipeView, items: Seq<(Item, u32)>) -> bool {
    &&& r.craftable()
    &&& r.consumables.len() == items.len()
    &&& forall|k: int| 0 <= k < r.consumables.len() ==> items.contains(#[trigger] r.consumables[k])
}

/// Whether `r` can be taken apart into `output`'s parts.
pub open spec fn takes_apart(r: RecipeView, output: Item) -> bool {
    r.disassemblable() && r.output == output
}

/// The outcome of a first-match search of the book with predicate `p`:
/// `Some` of the first entry satisfying `p`, else `None`.
pub open spec fn first_in_book(p: spec_fn(RecipeView) -> bool, found: Option<RecipeView>) -> bool {
    match found {
        Some(v) => exists|i: int|
            0 <= i < recipe_book().len() && p(#[trigger] recipe_book()[i]) && v == recipe_book()[i]
                && forall|j: int| 0 <= j < i ==> !p(#[trigger] recipe_book()[j]),
        None => forall|i: int| 0 <= i < recipe_book().len() ==> !p(#[trigger] recipe_book()[i]),
    }
}

/// The view of an optional recipe.
pub open spec fn opt_view(r: Option<Recipe>) -> Option<RecipeView> {
    match r {
        Some(rec) => Some(rec@),
        None => None,
    }
}

fn contains_pair(items: &[(Item, u32)], x: (Item, u32)) -> (r: bool)
    ensures
        r == items@.contains(x),
{
    let mut i: usize = 0;
    while i < items.len()
        invariant
            i <= items@.len(),
            forall|j: int| 0 <= j < i ==> items@[j] != x,
        decreases items.len() - i,
    {
        if items[i].0 == x.0 && items[i].1 == x.1 {
            assert(items@[i as int] == x);
            return true;
        }
        i = i + 1;
    }
    false
}

fn recipe_matches(r: &Recipe, items: &[(Item, u32)]) -> (b: bool)
    ensures
        b == matches_items(r@, items@),
{
    if !r.craftable() || r.consumables().len() != items.len() {
        return false;
    }
    let cons = r.consumables();
    let mut k: usize = 0;
    while k < cons.len()
        invariant
            k <= cons@.len(),
            cons@ == r@.consumables,
            forall|j: int| 0 <= j < k ==> items@.contains(#[trigger] cons@[j]),
        decreases cons.len() - k,
    {
        if !contains_pair(items, cons[k]) {
            return false;
        }
        k = k + 1;
    }
    true
}

/// An experiment only ever matches a recipe that can be built: a list of
/// items never matches one that can only be taken apart, and a match lists
/// exactly as many entries as the recipe, each of its consumables among them.
pub proof fn lemma_matching_is_buildable(r: RecipeView, items: Seq<(Item, u32)>)
    requires
        matches_items(r, items),
    ensures
        r.flow == RecipeFlow::CraftOnly || r.flow == RecipeFlow::Both,
        r.consumables.len() == items.len(),
        forall|k: int| 0 <= k < r.consumables.len() ==> items.contains(#[trigger] r.consumables[k]),
{
}

/// Taking apart selects exactly the recipes for `output` that run that way:
/// those that are both built and taken apart, and those only taken apart.
pub proof fn lemma_takes_apart_exactly(r: RecipeView, output: Item)
    ensures
        takes_apart(r, output) <==> ((r.flow == RecipeFlow::Both || r.flow == RecipeFlow::DisassembleOnly) && r.output == output),
{
}

/// The craftable recipe whose consumables are exactly `items` (any order),
/// if any. Disassemble-only recipes are skipped.
pub fn find_matching(items: &[(Item, u32)]) -> (r: Option<Recipe>)
    ensures
        first_in_book(|v: RecipeView| matches_items(v, items@), opt_view(r)),
        r matches Some(x) ==> {
            &&& x@.flow != RecipeFlow::DisassembleOnly
            &&& x@.consumables.len() == items@.len()
            &&& forall|k: int| 0 <= k < x@.consumables.len() ==> items@.contains(#[trigger] x@.consumables[k])
        },
{
    let book = recipes();
    let mut i: usize = 0;
    while i < book.len()
        invariant
            i <= book@.len(),
            book@.len() == recipe_book().len(),
            forall|k: int| 0 <= k < book@.len() ==> #[trigger] book@[k]@ == recipe_book()[k],
            forall|j: int| 0 <= j < i ==> !matches_items(#[trigger] recipe_book()[j], items@),
        decreases book.len() - i,
    {
        if recipe_matches(&book[i], items) {
            let found = book[i].clone();
            assert(opt_view(Some(found)) == Some(recipe_book()[i as int]));
            proof {
                lemma_matching_is_buildable(found@, items@);
            }
            return Some(found);
        }
        i = i + 1;
    }
    None
}

/// The recipe that produces `output` and can be taken apart, if any.
pub fn disassembly_for(output: Item) -> (r: Option<Recipe>)
    ensures
        first_in_book(|v: RecipeView| takes_apart(v, output), opt_view(r)),
        r is Some <==> exists|i: int| 0 <= i < recipe_book().len()
            && (recipe_book()[i].flow == RecipeFlow::Both || recipe_book()[i].flow == RecipeFlow::DisassembleOnly)
            && #[trigger] recipe_book()[i].output == output,
        r matches Some(x) ==> x@.output == output
            && (x@.flow == RecipeFlow::Both || x@.flow == RecipeFlow::DisassembleOnly),
{
    let book = recipes();
    let mut i: usize = 0;
    while i < book.len()
        invariant
            i <= book@.len(),
            book@.len() == recipe_book().len(),
            forall|k: int| 0 <= k < book@.len() ==> #[trigger] book@[k]@ == recipe_book()[k],
            forall|j: int| 0 <= j < i ==> !takes_apart(#[trigger] recipe_book()[j], output),
        decreases book.len() - i,
    {
        if book[i].disassemblable() && book[i].output() == output {
            let found = book[i].clone();
            proof {
                lemma_takes_apart_exactly(recipe_book()[i as int], output);
            }
            return Some(found);
        }
        i = i + 1;
    }
    proof {
        assert forall|i: int| 0 <= i < recipe_book().len()
            && (recipe_book()[i].flow == RecipeFlow::Both || recipe_book()[i].flow == RecipeFlow::DisassembleOnly)
            implies #[trigger] recipe_book()[i].output != output by {
            lemma_takes_apart_exactly(recipe_book()[i], output);
        }
    }
    None
}

/// The recipe with the given name, if the book has one.
pub fn recipe_named(name: &str) -> (r: Option<Recipe>)
    ensures
        first_in_book(|v: RecipeView| v.name == name@, opt_view(r)),
{
    let book = recipes();
    let mut i: usize = 0;
    while i < book.len()
        invariant
            i <= book@.len(),
            book@.len() == recipe_book().len(),
            forall|k: int| 0 <= k < book@.len() ==> #[trigger] book@[k]@ == recipe_book()[k],
            forall|j: int| 0 <= j < i ==> (#[trigger] recipe_book()[j]).name != name@,
        decreases book.len() - i,
    {
        if str_eq(book[i].name(), name) {
            let found = book[i].clone();
            return Some(found);
        }
        i = i + 1;
    }
    None
}

} // verus!
