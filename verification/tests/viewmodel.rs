use std::time::Duration;

use the_bug::game::player::BAG_CAPACITY;
use the_bug::game::{Item, Player, TerrainType, Unlocked};
use the_bug::viewmodel::crafting;
use the_bug::viewmodel::disassembly;
use the_bug::viewmodel::events::{compact, compact_secs};
use the_bug::viewmodel::inventory::{combined_sorted, sorted};
use the_bug::viewmodel::items::overview;
use the_bug::viewmodel::map::terrain_rgb;
use the_bug::viewmodel::panel::Panel;
use the_bug::viewmodel::selection::ItemSelection;

#[test]
fn no_recipes_yields_no_options() {
    assert!(crafting::options(&Player::default()).is_empty());
}

#[test]
fn empty_when_nothing_is_disassemblable() {
    let mut player = Player::default();
    player.inventory.insert(Item::Vine, 3);
    player.inventory.insert(Item::Arrow, 1);

    assert!(disassembly::options(&player).is_empty());
}

#[test]
fn lists_disassemblable_outputs_in_item_order() {
    let mut player = Player::default();
    player.inventory.insert(Item::Vine, 2);
    player.inventory.insert(Item::StoneAxe, 1);
    player.inventory.insert(Item::WoodenBow, 1);

    assert_eq!(disassembly::options(&player), vec![Item::StoneAxe, Item::WoodenBow]);
}

#[test]
fn exhausted_items_are_omitted() {
    let mut player = Player::default();
    player.inventory.insert(Item::StoneAxe, 0);

    assert!(disassembly::options(&player).is_empty());
}

#[test]
fn compact_formats_minutes_and_rolls_over_to_hours() {
    assert_eq!(compact(Duration::ZERO), "00:00");
    assert_eq!(compact(Duration::from_secs(167)), "02:47");
    assert_eq!(compact(Duration::from_secs(3800)), "1:03:20");
}

#[test]
fn empty_inventory_yields_empty_list() {
    assert!(sorted(&Player::default()).is_empty());
}

#[test]
fn entries_are_sorted_by_item_order() {
    let mut player = Player::default();
    player.inventory.insert(Item::Cord, 1);
    player.inventory.insert(Item::Stick, 4);
    player.inventory.insert(Item::Stone, 2);

    assert_eq!(sorted(&player), vec![(Item::Stick, 4), (Item::Stone, 2), (Item::Cord, 1)]);
}

#[test]
fn zero_quantity_entries_are_omitted() {
    let mut player = Player::default();
    player.inventory.insert(Item::Stick, 3);
    player.inventory.insert(Item::Cord, 0);

    assert_eq!(sorted(&player), vec![(Item::Stick, 3)]);
}

#[test]
fn combined_sorted_merges_storage_and_bag_quantities_for_the_same_item() {
    let mut player = Player::default();
    player.inventory.insert(Item::Stick, 3);
    player.bag.insert(Item::Stick, 2);
    player.bag.insert(Item::Stone, 1);

    assert_eq!(combined_sorted(&player), vec![(Item::Stick, 5), (Item::Stone, 1)]);
}

#[test]
fn combined_sorted_omits_entries_that_are_zero_in_both_pools() {
    let mut player = Player::default();
    player.inventory.insert(Item::Cord, 0);
    player.bag.insert(Item::Cord, 0);
    player.bag.insert(Item::Stick, 2);

    assert_eq!(combined_sorted(&player), vec![(Item::Stick, 2)]);
}

#[test]
fn empty_player_yields_empty_equipment_and_storage() {
    let overview = overview(&Player::default());
    assert!(overview.equipment.is_empty());
    assert!(overview.storage.is_empty());
    assert_eq!(overview.equipment_progress, (0, Player::default().equipment_progress().1));
}

#[test]
fn equipment_and_storage_are_each_sorted_by_item_order_independently() {
    let mut player = Player::default();
    player.bag.insert(Item::Cord, 1);
    player.bag.insert(Item::Branch, 4);
    player.inventory.insert(Item::Stone, 2);

    let overview = overview(&player);

    assert_eq!(overview.equipment, vec![(Item::Branch, 4), (Item::Cord, 1)]);
    assert_eq!(overview.storage, vec![(Item::Stone, 2)]);
}

#[test]
fn zero_quantity_entries_are_omitted_from_the_equipment() {
    let mut player = Player::default();
    player.bag.insert(Item::Branch, 3);
    player.bag.insert(Item::Cord, 0);

    assert_eq!(overview(&player).equipment, vec![(Item::Branch, 3)]);
}

#[test]
fn equipment_progress_reflects_the_running_total() {
    let mut player = Player::default();
    player.bag.insert(Item::Branch, 3);
    player.bag.insert(Item::Stone, 2);

    let capacity = Player::default().equipment_progress().1;
    assert_eq!(overview(&player).equipment_progress, (5, capacity));
    assert_eq!(capacity, BAG_CAPACITY);
}

#[test]
fn terrain_rgb_is_distinct_per_terrain() {
    let colours = [
        terrain_rgb(TerrainType::Meadow),
        terrain_rgb(TerrainType::Forest),
        terrain_rgb(TerrainType::Deadland),
    ];

    for i in 0..colours.len() {
        for j in (i + 1)..colours.len() {
            assert_ne!(colours[i], colours[j], "terrains {i} and {j} share a colour");
        }
    }
}

const EVERYTHING: [Unlocked; 5] = [
    Unlocked::WorldMap,
    Unlocked::Experiment,
    Unlocked::Craft,
    Unlocked::Disassemble,
    Unlocked::Items,
];

#[test]
fn panel_next_cycles_through_every_panel_in_order_and_wraps() {
    assert_eq!(Panel::Quests.next(&EVERYTHING), Panel::WorldMap);
    assert_eq!(Panel::WorldMap.next(&EVERYTHING), Panel::Items);
    assert_eq!(Panel::Items.next(&EVERYTHING), Panel::Experiment);
    assert_eq!(Panel::Experiment.next(&EVERYTHING), Panel::Craft);
    assert_eq!(Panel::Craft.next(&EVERYTHING), Panel::Disassemble);
    assert_eq!(Panel::Disassemble.next(&EVERYTHING), Panel::Quests);
}

#[test]
fn panel_prev_cycles_through_every_panel_in_reverse_and_wraps() {
    assert_eq!(Panel::Quests.prev(&EVERYTHING), Panel::Disassemble);
    assert_eq!(Panel::Disassemble.prev(&EVERYTHING), Panel::Craft);
    assert_eq!(Panel::Craft.prev(&EVERYTHING), Panel::Experiment);
    assert_eq!(Panel::Experiment.prev(&EVERYTHING), Panel::Items);
    assert_eq!(Panel::Items.prev(&EVERYTHING), Panel::WorldMap);
    assert_eq!(Panel::WorldMap.prev(&EVERYTHING), Panel::Quests);
}

#[test]
fn panel_next_and_prev_are_inverses_for_every_panel() {
    for panel in Panel::ALL {
        assert_eq!(panel.next(&EVERYTHING).prev(&EVERYTHING), panel);
        assert_eq!(panel.prev(&EVERYTHING).next(&EVERYTHING), panel);
    }
}

#[test]
fn with_nothing_unlocked_only_quests_is_visible_and_cycling_stays_put() {
    assert_eq!(Panel::visible(&[]), [Panel::Quests]);
    assert_eq!(Panel::Quests.next(&[]), Panel::Quests);
    assert_eq!(Panel::Quests.prev(&[]), Panel::Quests);
}

#[test]
fn cycling_skips_locked_panels() {
    let unlocked = [Unlocked::WorldMap];
    assert_eq!(Panel::visible(&unlocked), [Panel::Quests, Panel::WorldMap]);
    assert_eq!(Panel::WorldMap.next(&unlocked), Panel::Quests);
    assert_eq!(Panel::Quests.next(&unlocked), Panel::WorldMap);
    assert_eq!(Panel::WorldMap.prev(&unlocked), Panel::Quests);
    assert_eq!(Panel::Quests.prev(&unlocked), Panel::WorldMap);
}

#[test]
fn default_panel_is_quests_since_nothing_else_is_unlocked_at_the_start() {
    assert_eq!(Panel::default(), Panel::Quests);
}

fn inventory() -> Vec<(Item, u32)> {
    vec![(Item::Stick, 1), (Item::Stone, 3), (Item::Vine, 2)]
}

#[test]
fn add_accumulates_and_caps_at_owned() {
    let mut sel = ItemSelection::default();
    sel.add(Item::Stone, 3);
    sel.add(Item::Stone, 3);
    assert_eq!(sel.quantity(Item::Stone), 2);

    for _ in 0..5 {
        sel.add(Item::Stick, 1);
    }
    assert_eq!(sel.quantity(Item::Stick), 1);
}

#[test]
fn decrement_removes_entry_at_zero() {
    let mut sel = ItemSelection::default();
    sel.add(Item::Stone, 3);
    sel.add(Item::Stone, 3);

    assert!(!sel.decrement_at(0));
    assert_eq!(sel.items(), &[(Item::Stone, 1)]);
    assert!(sel.decrement_at(0));
    assert!(sel.is_empty());
    assert!(!sel.decrement_at(0));
}

#[test]
fn selection_available_subtracts_selection_saturating() {
    let mut sel = ItemSelection::default();
    sel.add(Item::Stick, 1);
    assert_eq!(
        sel.available(&inventory()),
        vec![(Item::Stick, 0), (Item::Stone, 3), (Item::Vine, 2)]
    );
}

#[test]
fn take_empties_the_selection() {
    let mut sel = ItemSelection::default();
    sel.add(Item::Stick, 1);
    assert_eq!(sel.take(), vec![(Item::Stick, 1)]);
    assert!(sel.is_empty());
}

#[test]
fn clamp_to_trims_a_quantity_that_now_exceeds_the_stock() {
    let mut sel = ItemSelection::default();
    sel.add(Item::Stone, 3);
    sel.add(Item::Stone, 3);
    sel.add(Item::Stone, 3);

    sel.clamp_to(&[(Item::Stone, 2)]);

    assert_eq!(sel.quantity(Item::Stone), 2);
}

#[test]
fn clamp_to_drops_an_entry_the_stock_no_longer_has() {
    let mut sel = ItemSelection::default();
    sel.add(Item::Stick, 1);
    sel.add(Item::Stone, 1);

    sel.clamp_to(&[(Item::Stone, 1)]);

    assert_eq!(sel.items(), &[(Item::Stone, 1)]);
}

#[test]
fn clamp_to_leaves_a_selection_the_stock_still_covers_untouched() {
    let mut sel = ItemSelection::default();
    sel.add(Item::Stick, 1);
    sel.add(Item::Stone, 5);
    sel.add(Item::Stone, 5);

    sel.clamp_to(&[(Item::Stick, 1), (Item::Stone, 5)]);

    assert_eq!(sel.items(), &[(Item::Stick, 1), (Item::Stone, 2)]);
}

use the_bug::game::{EventKind, Game, QuestID};
use the_bug::viewmodel::events::recent;
use the_bug::viewmodel::quests;

#[test]
fn option_is_enabled_only_when_consumables_are_affordable() {
    let mut game = Game::default();
    game.player.inventory.insert(Item::Vine, 2);
    game.experiment(&[(Item::Vine, 2)]);

    let opts = crafting::options(&game.player);
    assert_eq!(opts.len(), 1);
    assert_eq!(opts[0].id, "Cord");
    assert_eq!(opts[0].output, Item::Cord);
    assert!(!opts[0].enabled);

    game.player.inventory.insert(Item::Vine, 2);
    assert!(crafting::options(&game.player)[0].enabled);
}

#[test]
fn option_reports_each_consumable_with_have_and_need() {
    let mut game = Game::default();
    game.player.inventory.insert(Item::Vine, 2);
    game.experiment(&[(Item::Vine, 2)]);
    game.player.inventory.insert(Item::Vine, 5);

    let opt = crafting::options(&game.player).pop().unwrap();
    assert_eq!(opt.consumables.len(), 1);
    let vine = &opt.consumables[0];
    assert_eq!(vine.item, Item::Vine);
    assert_eq!((vine.have, vine.need), (5, 2));
    assert!(vine.met());
}

#[test]
fn a_missing_consumable_is_reported_as_unmet() {
    let mut game = Game::default();
    game.player.inventory.insert(Item::Vine, 2);
    game.experiment(&[(Item::Vine, 2)]);

    let opt = crafting::options(&game.player).pop().unwrap();
    let vine = &opt.consumables[0];
    assert_eq!((vine.have, vine.need), (0, 2));
    assert!(!vine.met());
    assert!(!opt.enabled);
}

#[test]
fn a_consumable_split_across_storage_and_the_equipment_still_counts_combined() {
    let mut game = Game::default();
    game.player.inventory.insert(Item::Vine, 2);
    game.experiment(&[(Item::Vine, 2)]);
    game.player.inventory.insert(Item::Vine, 1);
    game.player.bag.insert(Item::Vine, 1);

    let opt = crafting::options(&game.player).pop().unwrap();
    let vine = &opt.consumables[0];
    assert_eq!((vine.have, vine.need), (2, 2));
    assert!(vine.met());
    assert!(opt.enabled);
}

#[test]
fn a_missing_tool_disables_the_option_even_with_every_consumable() {
    let mut game = Game::default();
    game.player.grant_recipe("Wooden Bow");
    game.player.inventory.insert(Item::Branch, 1);
    game.player.inventory.insert(Item::Cord, 1);

    let opt = crafting::options(&game.player).pop().unwrap();
    assert_eq!(opt.tools.len(), 1);
    assert_eq!(opt.tools[0].item, Item::StoneAxe);
    assert!(!opt.tools[0].present);
    assert!(!opt.enabled);

    game.player.inventory.insert(Item::StoneAxe, 1);
    let opt = crafting::options(&game.player).pop().unwrap();
    assert!(opt.tools[0].present);
    assert!(opt.enabled);
}

#[test]
fn returns_newest_first_and_respects_count() {
    let mut game = Game::default();
    game.craft("aaa");
    game.craft("bbb");

    let recent = recent(&game, 2);
    assert_eq!(recent.len(), 2);
    assert_eq!(recent[0].kind, &EventKind::UnknownRecipe { recipe: "bbb".to_string() });
    assert_eq!(recent[1].kind, &EventKind::UnknownRecipe { recipe: "aaa".to_string() });
}

#[test]
fn count_larger_than_log_returns_whole_log() {
    let game = Game::default();
    assert_eq!(recent(&game, 100).len(), game.events().len());
}

#[test]
fn first_event_of_a_fresh_game_is_stamped_zero() {
    let game = Game::default();
    assert_eq!(recent(&game, 1)[0].timestamp, "00:00");
}

#[test]
fn recent_exposes_the_event_kind() {
    let mut game = Game::default();
    game.craft("whatever");
    assert_eq!(recent(&game, 1)[0].kind, &EventKind::UnknownRecipe { recipe: "whatever".to_string() });
}

#[test]
fn fresh_game_offers_only_the_dependency_free_quest() {
    let game = Game::default();
    let overview = quests::overview(&game);

    assert!(overview.active.is_none());
    assert!(overview.completed.is_empty());
    let available: Vec<QuestID> = overview.available.iter().map(|q| q.id).collect();
    assert_eq!(available, [QuestID::ExploreRuins]);
}

#[test]
fn compact_secs_spells_hours_without_padding() {
    assert_eq!(compact_secs(59), "00:59");
    assert_eq!(compact_secs(3599), "59:59");
    assert_eq!(compact_secs(3600), "1:00:00");
    assert_eq!(compact_secs(36_000 + 61), "10:01:01");
}
