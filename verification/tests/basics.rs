use the_bug::game::quest::{dependencies_met, Quest, QuestCondition, EventTypeID};
use the_bug::game::recipe::recipe_named;
use the_bug::game::{Item, QuestID, Recipe, RecipeFlow, TerrainType};

#[test]
fn item_display_names() {
    assert_eq!(Item::Stick.to_string(), "Stick");
    assert_eq!(Item::StoneAxe.to_string(), "Stone Axe");
}

#[test]
fn terrain_type_display_is_name_and_symbol_is_glyph() {
    assert_eq!(TerrainType::Forest.to_string(), "Forest");
    assert_eq!(TerrainType::Forest.symbol(), '𖠰');
    assert_eq!(TerrainType::Deadland.symbol(), ' ');
}

#[test]
fn symbol_is_the_map_glyph() {
    assert_eq!(TerrainType::Forest.symbol(), '𖠰');
    assert_eq!(TerrainType::Deadland.symbol(), ' ');
}

/// A quest on the stone axe that depends on exploring the ruins.
fn fixture_quest() -> Quest {
    Quest {
        id: QuestID::CraftAxe,
        dependencies: vec![QuestID::ExploreRuins],
        condition: QuestCondition { event: EventTypeID::CraftItem(Item::StoneAxe), count: 1 },
        reward_xp: 7,
        reward_items: vec![(Item::Cord, 2)],
        unlocks_on_accept: vec![],
        unlocks_on_complete: vec![],
    }
}

#[test]
fn game_dependencies_met_is_false_when_a_dependency_is_missing() {
    assert!(!dependencies_met(&fixture_quest(), &[]));
}

#[test]
fn game_dependencies_met_is_true_once_every_dependency_is_completed() {
    assert!(dependencies_met(&fixture_quest(), &[QuestID::ExploreRuins]));
}

#[test]
fn quest_dependencies_met_is_false_when_a_dependency_is_missing() {
    assert!(!dependencies_met(&fixture_quest(), &[]));
}

#[test]
fn quest_dependencies_met_is_true_once_every_dependency_is_completed() {
    assert!(dependencies_met(&fixture_quest(), &[QuestID::ExploreRuins]));
}

fn recipe(flow: RecipeFlow) -> Recipe {
    Recipe::new("x", vec![], vec![], Item::Branch, flow)
}

#[test]
fn flow_maps_to_the_craftable_and_disassemblable_predicates() {
    let craft_only = recipe(RecipeFlow::CraftOnly);
    assert!(craft_only.craftable() && !craft_only.disassemblable());

    let both = recipe(RecipeFlow::Both);
    assert!(both.craftable() && both.disassemblable());

    let disasm_only = recipe(RecipeFlow::DisassembleOnly);
    assert!(!disasm_only.craftable() && disasm_only.disassemblable());
}

#[test]
fn tools_lists_the_recipes_required_but_unconsumed_items() {
    assert_eq!(recipe_named("Wooden Bow").unwrap().tools(), &vec![Item::StoneAxe]);
    assert_eq!(recipe_named("Cord").unwrap().tools(), &Vec::<Item>::new());
}
