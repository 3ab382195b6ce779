use std::time::Duration;

use the_bug::game::map::CERTAIN;
use the_bug::game::player::BAG_CAPACITY;
use the_bug::game::quest::{quests, EventTypeID, QuestCondition};
use the_bug::game::{
    recipes, Direction, Event, EventKind, FoundIn, Game, Item, MapTile, Poi, Quest, QuestError, QuestID,
    TerrainType,
};

fn last_event(game: &Game) -> &Event {
    game.events().last().unwrap()
}

/// A tile whose finds are all sure things.
fn sure_finds(mut tile: MapTile) -> MapTile {
    for entry in tile.items.iter_mut() {
        entry.1 = CERTAIN;
    }
    tile
}

/// A tile whose game is all sure things.
fn sure_game(mut tile: MapTile) -> MapTile {
    for entry in tile.hunt_items.iter_mut() {
        entry.1 = CERTAIN;
    }
    tile
}

#[test]
fn mod_walk_moves_and_respects_boundary() {
    for (dir, delta) in [
        (Direction::West, (-1, 0)),
        (Direction::East, (1, 0)),
        (Direction::North, (0, 1)),
        (Direction::South, (0, -1)),
    ] {
        let mut game = Game::default();
        let (x, y) = game.player.coordinates;
        game.walk(dir);
        assert_eq!(game.player.coordinates, (x + delta.0, y + delta.1));

        let h = game.map.half;
        game.player.coordinates = (delta.0 * h, delta.1 * h);
        game.walk(dir);
        assert_eq!(game.player.coordinates, (delta.0 * h, delta.1 * h));
    }
}

#[test]
fn mod_walk_does_not_log() {
    let mut game = Game::default();
    let before = game.events().len();
    game.walk(Direction::North);
    game.walk(Direction::East);
    assert_eq!(game.events().len(), before);
}

#[test]
fn mod_test_y_axis_inversion() {
    let mut game = Game::default();

    game.player.coordinates = (0, 0);
    let (tx, ty) = game.map.world_to_tile(game.player.coordinates);

    game.map.tiles[ty - 1][tx] = MapTile::with_terrain(TerrainType::Meadow);
    game.map.tiles[ty + 1][tx] = MapTile::with_terrain(TerrainType::Forest);

    game.walk(Direction::North);
    assert_eq!(game.player.coordinates, (0, 1));
    assert_eq!(
        game.map.get_tile(game.player.coordinates).unwrap().terrain_type,
        TerrainType::Forest
    );
}

#[test]
fn mod_experiment_logs_are_precise() {
    let mut game = Game::default();
    game.player.inventory.insert(Item::Stone, 1);
    game.experiment(&[(Item::Stone, 5)]);
    assert_eq!(
        last_event(&game).kind(),
        &EventKind::ExperimentShortage {
            items: vec![(Item::Stone, 5)],
            missing: Item::Stone,
            available: 1,
            needed: 5,
        }
    );

    let mut game = Game::default();
    game.player.inventory.insert(Item::Branch, 1);
    game.player.inventory.insert(Item::Vine, 1);
    game.experiment(&[(Item::Vine, 1), (Item::Branch, 1)]);
    assert_eq!(
        last_event(&game).kind(),
        &EventKind::ExperimentFailed {
            items: vec![(Item::Vine, 1), (Item::Branch, 1)],
        }
    );

    let mut game = Game::default();
    game.player.inventory.insert(Item::Vine, 4);
    game.experiment(&[(Item::Vine, 2)]);
    assert_eq!(
        last_event(&game).kind(),
        &EventKind::Experimented {
            items: vec![(Item::Vine, 2)],
            output: Item::Cord,
            newly_learned: true,
        }
    );
    game.experiment(&[(Item::Vine, 2)]);
    assert_eq!(
        last_event(&game).kind(),
        &EventKind::Experimented {
            items: vec![(Item::Vine, 2)],
            output: Item::Cord,
            newly_learned: false,
        }
    );
}

#[test]
fn mod_empty_experiment_does_nothing() {
    let mut game = Game::default();
    let before = game.events().len();
    game.experiment(&[]);
    assert_eq!(game.events().len(), before);
}

#[test]
fn at_craftable_location_is_true_at_the_default_spawn_and_false_away_from_it() {
    let mut game = Game::default();
    assert!(game.at_craftable_location());

    game.player.coordinates = (5, 5);
    assert!(!game.at_craftable_location());
}

#[test]
fn bag_total_sums_every_item_in_the_bag() {
    let mut game = Game::default();
    assert_eq!(game.player.bag_total(), 0);

    game.player.add_to_bag(Item::Branch, 3);
    game.player.add_to_bag(Item::Stone, 2);

    assert_eq!(game.player.bag_total(), 5);
}

#[test]
fn add_to_bag_fits_within_capacity() {
    let mut game = Game::default();

    assert!(game.player.add_to_bag(Item::Branch, BAG_CAPACITY));

    assert_eq!(game.player.bag_count(Item::Branch), BAG_CAPACITY);
    assert_eq!(game.player.bag_total(), BAG_CAPACITY);
}

#[test]
fn add_to_bag_rejects_an_amount_that_would_exceed_capacity() {
    let mut game = Game::default();
    game.player.add_to_bag(Item::Branch, BAG_CAPACITY - 1);

    assert!(!game.player.add_to_bag(Item::Stone, 2));

    assert_eq!(game.player.bag_count(Item::Stone), 0);
    assert_eq!(game.player.bag_total(), BAG_CAPACITY - 1);
}

#[test]
fn has_item_in_bag_and_bag_count_reflect_the_bag_not_storage() {
    let mut game = Game::default();
    game.player.inventory.insert(Item::Branch, 5);

    assert!(!game.player.has_item_in_bag(Item::Branch));
    assert_eq!(game.player.bag_count(Item::Branch), 0);

    game.player.add_to_bag(Item::Branch, 1);

    assert!(game.player.has_item_in_bag(Item::Branch));
    assert_eq!(game.player.bag_count(Item::Branch), 1);
}

#[test]
fn transfer_to_storage_moves_items_from_bag_to_storage() {
    let mut game = Game::default();
    game.player.add_to_bag(Item::Vine, 5);

    assert!(game.player.transfer_to_storage(Item::Vine, 3));

    assert_eq!(game.player.bag_count(Item::Vine), 2);
    assert_eq!(game.player.inventory.get(&Item::Vine), Some(&3));
}

#[test]
fn transfer_to_storage_fails_without_enough_in_the_bag() {
    let mut game = Game::default();
    game.player.add_to_bag(Item::Vine, 1);

    assert!(!game.player.transfer_to_storage(Item::Vine, 2));

    assert_eq!(game.player.bag_count(Item::Vine), 1);
    assert!(game.player.inventory.is_empty());
}

#[test]
fn transfer_to_bag_moves_items_from_storage_to_bag() {
    let mut game = Game::default();
    game.player.inventory.insert(Item::Vine, 5);

    assert!(game.player.transfer_to_bag(Item::Vine, 3));

    assert_eq!(game.player.inventory.get(&Item::Vine), Some(&2));
    assert_eq!(game.player.bag_count(Item::Vine), 3);
}

#[test]
fn transfer_to_bag_fails_without_enough_in_storage() {
    let mut game = Game::default();
    game.player.inventory.insert(Item::Vine, 1);

    assert!(!game.player.transfer_to_bag(Item::Vine, 2));

    assert_eq!(game.player.inventory.get(&Item::Vine), Some(&1));
    assert!(game.player.bag.is_empty());
}

#[test]
fn transfer_to_bag_fails_when_the_bag_has_no_room_and_leaves_storage_untouched() {
    let mut game = Game::default();
    game.player.inventory.insert(Item::Vine, 5);
    game.player.add_to_bag(Item::Branch, BAG_CAPACITY);

    assert!(!game.player.transfer_to_bag(Item::Vine, 1));

    assert_eq!(game.player.inventory.get(&Item::Vine), Some(&5));
    assert_eq!(game.player.bag_count(Item::Vine), 0);
}

#[test]
fn spend_from_bag_removes_exhausted_entries() {
    let mut game = Game::default();
    game.player.add_to_bag(Item::Vine, 2);

    game.player.spend_from_bag(Item::Vine, 2);

    assert_eq!(game.player.bag.get(&Item::Vine), None);
}

#[test]
fn spend_storage_then_bag_draws_storage_first() {
    let mut game = Game::default();
    game.player.inventory.insert(Item::Vine, 3);
    game.player.add_to_bag(Item::Vine, 5);

    game.player.spend_storage_then_bag(Item::Vine, 3);

    assert_eq!(game.player.inventory.get(&Item::Vine), None);
    assert_eq!(game.player.bag_count(Item::Vine), 5);
}

#[test]
fn spend_storage_then_bag_spills_the_remainder_into_the_bag() {
    let mut game = Game::default();
    game.player.inventory.insert(Item::Vine, 2);
    game.player.add_to_bag(Item::Vine, 5);

    game.player.spend_storage_then_bag(Item::Vine, 4);

    assert_eq!(game.player.inventory.get(&Item::Vine), None);
    assert_eq!(game.player.bag_count(Item::Vine), 3);
}

#[test]
fn combined_count_and_has_item_combined_sum_both_pools() {
    let mut game = Game::default();
    assert!(!game.player.has_item_combined(Item::Vine));

    game.player.inventory.insert(Item::Vine, 2);
    game.player.add_to_bag(Item::Vine, 3);

    assert_eq!(game.player.combined_count(Item::Vine), 5);
    assert!(game.player.has_item_combined(Item::Vine));
}

#[test]
fn game_transfer_to_storage_requires_the_village() {
    let mut game = Game::default();
    game.player.add_to_bag(Item::Vine, 3);
    game.player.coordinates = (5, 5);

    game.transfer_to_storage(Item::Vine, 3);

    assert_eq!(game.player.bag_count(Item::Vine), 3);
    assert!(game.player.inventory.is_empty());
}

#[test]
fn game_transfer_to_storage_moves_items_at_the_village() {
    let mut game = Game::default();
    game.player.add_to_bag(Item::Vine, 3);

    game.transfer_to_storage(Item::Vine, 3);

    assert_eq!(game.player.bag_count(Item::Vine), 0);
    assert_eq!(game.player.inventory.get(&Item::Vine), Some(&3));
}

#[test]
fn game_transfer_to_bag_requires_the_village() {
    let mut game = Game::default();
    game.player.inventory.insert(Item::Vine, 3);
    game.player.coordinates = (5, 5);

    game.transfer_to_bag(Item::Vine, 3);

    assert_eq!(game.player.inventory.get(&Item::Vine), Some(&3));
    assert!(game.player.bag.is_empty());
}

#[test]
fn game_transfer_to_bag_moves_items_at_the_village() {
    let mut game = Game::default();
    game.player.inventory.insert(Item::Vine, 3);

    game.transfer_to_bag(Item::Vine, 3);

    assert_eq!(game.player.inventory.get(&Item::Vine), None);
    assert_eq!(game.player.bag_count(Item::Vine), 3);
}

#[test]
fn drop_from_bag_works_anywhere() {
    let mut game = Game::default();
    game.player.add_to_bag(Item::Vine, 3);
    game.player.coordinates = (5, 5);

    game.drop_from_bag(Item::Vine, 1);

    assert_eq!(game.player.bag_count(Item::Vine), 2);
    assert_eq!(last_event(&game).kind(), &EventKind::Dropped { item: Item::Vine });
}

#[test]
fn drop_from_bag_without_enough_does_nothing() {
    let mut game = Game::default();
    let before = game.events().len();

    game.drop_from_bag(Item::Vine, 1);

    assert_eq!(game.events().len(), before);
}

#[test]
fn drop_from_storage_requires_the_village() {
    let mut game = Game::default();
    game.player.inventory.insert(Item::Vine, 3);
    game.player.coordinates = (5, 5);
    let before = game.events().len();

    game.drop_from_storage(Item::Vine, 1);

    assert_eq!(game.player.inventory.get(&Item::Vine), Some(&3));
    assert_eq!(game.events().len(), before);
}

#[test]
fn drop_from_storage_removes_one_unit_and_logs_at_the_village() {
    let mut game = Game::default();
    game.player.inventory.insert(Item::Vine, 3);

    game.drop_from_storage(Item::Vine, 1);

    assert_eq!(game.player.inventory.get(&Item::Vine), Some(&2));
    assert_eq!(last_event(&game).kind(), &EventKind::Dropped { item: Item::Vine });
}

#[test]
fn mod_failed_craft_does_not_insert_zero_entries() {
    let mut game = Game::default();
    game.player.grant_recipe("Stone Axe");

    game.craft("Stone Axe");

    assert!(game.player.inventory.is_empty());
}

#[test]
fn recipe_progress_reports_known_and_craftable_total() {
    let mut game = Game::default();
    let book = recipes();
    let craftable = book.iter().filter(|r| r.craftable()).count();
    assert!(craftable < book.len(), "some recipes are disassemble-only");
    assert_eq!(game.player.recipe_progress(), (0, craftable));

    game.player.inventory.insert(Item::Vine, 2);
    game.experiment(&[(Item::Vine, 2)]);
    assert_eq!(game.player.recipe_progress().0, 1);
}

#[test]
fn quest_progress_reports_completed_and_total() {
    let mut game = Game::default();
    assert_eq!(game.quest_progress(), (0, quests().len()));

    game.player.restore_quest_state(None, 0, vec![QuestID::CraftAxe]);
    assert_eq!(game.quest_progress(), (1, quests().len()));
}

#[test]
fn mod_crafting_grants_one_xp_per_ten_successful_crafts() {
    let mut game = Game::default();
    game.player.grant_recipe("Cord");

    game.craft("Unknown");
    game.craft("Cord");
    assert_eq!(game.player.crafts_completed, 0);

    for _ in 0..10 {
        game.player.inventory.insert(Item::Vine, 2);
        game.craft("Cord");
    }
    assert_eq!(game.player.crafts_completed, 10);
    assert_eq!(game.player.experience, 1);
}

#[test]
fn search_yields_terrain_and_poi_items_and_names_each_source() {
    let mut game = Game::default();
    let (tx, ty) = game.map.world_to_tile(game.player.coordinates);
    game.map.tiles[ty][tx] = MapTile {
        items: vec![
            (Item::Branch, CERTAIN, FoundIn::Terrain(TerrainType::Forest)),
            (Item::Stone, CERTAIN, FoundIn::Poi(Poi::Cave)),
        ],
        ..MapTile::with_terrain_and_poi(TerrainType::Forest, Some(Poi::Cave))
    };
    let before = game.events().len();

    game.search();

    assert_eq!(game.player.bag.get(&Item::Branch), Some(&1));
    assert_eq!(game.player.bag.get(&Item::Stone), Some(&1));
    assert!(game.player.inventory.is_empty());
    assert_eq!(game.events().len(), before + 2);

    let sources: Vec<FoundIn> = game.events()[before..]
        .iter()
        .filter_map(|e| match e.kind() {
            EventKind::Found { source, .. } => Some(*source),
            _ => None,
        })
        .collect();
    assert!(sources.contains(&FoundIn::Terrain(TerrainType::Forest)));
    assert!(sources.contains(&FoundIn::Poi(Poi::Cave)));
}

#[test]
fn a_full_bag_loses_the_search_find_and_logs_bag_full_instead() {
    let mut game = Game::default();
    game.player.bag.insert(Item::Stone, BAG_CAPACITY);
    let (tx, ty) = game.map.world_to_tile(game.player.coordinates);
    game.map.tiles[ty][tx] = sure_finds(MapTile::with_terrain(TerrainType::Forest));

    game.search();

    assert_eq!(last_event(&game).kind(), &EventKind::BagFull { item: Item::Branch });
    assert_eq!(game.player.bag.get(&Item::Branch), None);
}

/// The player on a Meadow whose game is a sure thing, carrying a bow.
fn armed_on_a_meadow() -> Game {
    let mut game = Game::default();
    let (tx, ty) = game.map.world_to_tile(game.player.coordinates);
    game.map.tiles[ty][tx] = sure_game(MapTile::with_terrain(TerrainType::Meadow));
    game.player.bag.insert(Item::WoodenBow, 1);
    game
}

#[test]
fn a_successful_hunt_spends_one_arrow_keeps_the_bow_and_logs_the_haul() {
    let mut game = armed_on_a_meadow();
    game.player.bag.insert(Item::Arrow, 2);

    game.hunt();

    assert_eq!(game.player.bag.get(&Item::Arrow), Some(&1));
    assert_eq!(game.player.bag.get(&Item::WoodenBow), Some(&1));
    for item in [Item::Meat, Item::Hide, Item::Bone, Item::Fur] {
        assert_eq!(game.player.bag.get(&item), Some(&1), "{item:?}");
    }
    assert!(matches!(last_event(&game).kind(), EventKind::Hunted { .. }));
}

#[test]
fn a_hunt_that_catches_nothing_still_spends_the_arrow_and_logs_a_miss() {
    let mut game = Game::default();
    let (tx, ty) = game.map.world_to_tile(game.player.coordinates);
    game.map.tiles[ty][tx] = MapTile::with_terrain(TerrainType::Deadland);
    game.player.bag.insert(Item::WoodenBow, 1);
    game.player.bag.insert(Item::Arrow, 1);

    game.hunt();

    assert_eq!(game.player.bag.get(&Item::Arrow), None);
    assert_eq!(last_event(&game).kind(), &EventKind::HuntMissed);
}

#[test]
fn a_hunt_that_only_partly_fits_logs_bag_full_and_hunted_and_still_counts() {
    let mut game = armed_on_a_meadow();
    game.player.bag.insert(Item::Arrow, 1);
    let carried = game.player.bag_total();
    game.player.bag.insert(Item::Branch, BAG_CAPACITY - carried - 1);

    game.player.restore_quest_state(None, 0, vec![QuestID::CraftAxe]);
    game.accept_quest(QuestID::StockUp).unwrap();

    game.hunt();

    let kinds: Vec<&EventKind> = game.events().iter().map(Event::kind).collect();
    assert!(
        kinds.iter().any(|k| matches!(k, EventKind::BagFull { .. })),
        "one catch didn't fit"
    );
    assert!(
        kinds.iter().any(|k| matches!(k, EventKind::Hunted { .. })),
        "the rest still counted as a haul"
    );
    assert_eq!(game.player.quest_progress(), 1);
}

#[test]
fn disassemble_logs_the_item_taken_apart() {
    let mut game = Game::default();
    game.player.inventory.insert(Item::StoneAxe, 1);

    game.disassemble(Item::StoneAxe);

    assert_eq!(last_event(&game).kind(), &EventKind::Disassembled { item: Item::StoneAxe });
}

#[test]
fn mod_disassemble_without_the_item_does_nothing() {
    let mut game = Game::default();
    let before = game.events().len();

    game.disassemble(Item::StoneAxe);

    assert!(game.player.inventory.is_empty());
    assert_eq!(game.events().len(), before);
}

#[test]
fn mod_events_are_timestamped_in_non_decreasing_order() {
    let mut game = Game::default();
    assert!(game.events()[0].elapsed() < Duration::from_secs(1));

    game.craft("Cord");
    game.craft("Cord");

    let elapsed: Vec<Duration> = game.events().iter().map(Event::elapsed).collect();
    assert!(elapsed.len() >= 3);
    assert!(elapsed.windows(2).all(|w| w[0] <= w[1]));
}

#[test]
fn mod_accept_quest_succeeds_for_an_available_quest() {
    let mut game = Game::default();
    assert_eq!(game.accept_quest(QuestID::ExploreRuins), Ok(()));
    assert_eq!(game.player.open_quest(), Some(QuestID::ExploreRuins));
    assert_eq!(game.player.quest_progress(), 0);
}

#[test]
fn mod_accept_quest_rejects_a_second_concurrent_quest() {
    let mut game = Game::default();
    game.accept_quest(QuestID::ExploreRuins).unwrap();
    assert_eq!(game.accept_quest(QuestID::CraftAxe), Err(QuestError::AnotherQuestActive));
}

#[test]
fn mod_accept_quest_rejects_an_already_completed_quest() {
    let mut game = Game::default();
    game.player.restore_quest_state(None, 0, vec![QuestID::CraftAxe]);
    assert_eq!(game.accept_quest(QuestID::CraftAxe), Err(QuestError::AlreadyCompleted));
}

#[test]
fn accept_quest_rejects_a_quest_with_unmet_dependencies() {
    let mut game = Game::default();
    assert_eq!(game.accept_quest(QuestID::CraftAxe), Err(QuestError::DependenciesNotMet));
}

#[test]
fn stock_up_needs_trouble_in_the_east_first() {
    let mut game = Game::default();
    assert_eq!(game.accept_quest(QuestID::StockUp), Err(QuestError::DependenciesNotMet));
}

/// The stock-up quest open, and a bow in the bag.
fn game_with_the_stock_up_quest_open() -> Game {
    let mut game = Game::default();
    game.player.restore_quest_state(None, 0, vec![QuestID::CraftAxe]);
    game.accept_quest(QuestID::StockUp).unwrap();
    game.player.bag.insert(Item::WoodenBow, 1);
    game
}

/// Makes the player's tile a Meadow whose game is a sure thing, then hunts.
fn sure_hunt(game: &mut Game) {
    let (tx, ty) = game.map.world_to_tile(game.player.coordinates);
    game.map.tiles[ty][tx] = sure_game(MapTile::with_terrain(TerrainType::Meadow));
    game.hunt();
}

#[test]
fn five_successful_hunts_complete_the_stock_up_quest() {
    let mut game = game_with_the_stock_up_quest_open();
    game.player.bag.insert(Item::Arrow, 5);

    for _ in 0..5 {
        sure_hunt(&mut game);
    }

    assert_eq!(game.player.open_quest(), None);
    assert!(game.player.completed_quests().contains(&QuestID::StockUp));
    assert_eq!(game.player.experience, 30);
}

#[test]
fn hunts_short_of_the_goal_leave_the_stock_up_quest_open() {
    let mut game = game_with_the_stock_up_quest_open();
    game.player.bag.insert(Item::Arrow, 3);

    for _ in 0..3 {
        sure_hunt(&mut game);
    }

    assert_eq!(game.player.open_quest(), Some(QuestID::StockUp));
    assert_eq!(game.player.quest_progress(), 3);
}

#[test]
fn a_hunt_that_catches_nothing_does_not_count_toward_the_stock_up_quest() {
    let mut game = game_with_the_stock_up_quest_open();
    game.player.bag.insert(Item::Arrow, 1);
    let (tx, ty) = game.map.world_to_tile(game.player.coordinates);
    game.map.tiles[ty][tx] = MapTile::with_terrain(TerrainType::Deadland);

    game.hunt();

    assert_eq!(last_event(&game).kind(), &EventKind::HuntMissed);
    assert_eq!(game.player.quest_progress(), 0);
    assert_eq!(game.player.open_quest(), Some(QuestID::StockUp));
}

#[test]
fn walking_onto_the_target_poi_completes_the_quest() {
    let mut game = Game::default();
    game.player.coordinates = (0, 0);
    let (tx, ty) = game.map.world_to_tile((0, 1));
    game.map.tiles[ty][tx].poi = Some(Poi::Ruins);
    game.accept_quest(QuestID::ExploreRuins).unwrap();
    let events_before = game.events().len();

    game.walk(Direction::North);

    assert_eq!(game.player.open_quest(), None);
    assert_eq!(game.player.completed_quests(), &vec![QuestID::ExploreRuins]);
    assert_eq!(game.events().len(), events_before + 1);
}

#[test]
fn walking_onto_a_tile_without_the_target_poi_does_not_advance_progress() {
    let mut game = Game::default();
    game.player.coordinates = (0, 0);
    let (tx, ty) = game.map.world_to_tile((0, 1));
    game.map.tiles[ty][tx].poi = None;
    game.accept_quest(QuestID::ExploreRuins).unwrap();

    game.walk(Direction::North);

    assert_eq!(game.player.quest_progress(), 0);
    assert_eq!(game.player.open_quest(), Some(QuestID::ExploreRuins));
}

#[test]
fn mod_walking_without_an_open_quest_does_nothing() {
    let mut game = Game::default();
    assert_eq!(game.player.open_quest(), None);
    game.walk(Direction::North);
    assert_eq!(game.player.quest_progress(), 0);
}

/// The axe quest open, with the quests before it done.
fn game_with_the_axe_quest_open() -> Game {
    let mut game = Game::default();
    game.player
        .restore_quest_state(None, 0, vec![QuestID::ExploreRuins, QuestID::OldCivilization]);
    game.accept_quest(QuestID::CraftAxe).unwrap();
    game
}

#[test]
fn crafting_the_target_item_completes_the_quest() {
    let mut game = game_with_the_axe_quest_open();
    game.player.grant_recipe("Stone Axe");
    game.player.inventory.insert(Item::Branch, 1);
    game.player.inventory.insert(Item::Stone, 1);
    game.player.inventory.insert(Item::Cord, 1);

    game.craft("Stone Axe");

    assert_eq!(game.player.open_quest(), None);
    assert_eq!(
        game.player.completed_quests(),
        &vec![QuestID::ExploreRuins, QuestID::OldCivilization, QuestID::CraftAxe]
    );
    assert_eq!(game.player.experience, 20);
}

#[test]
fn crafting_the_target_item_logs_the_craft_before_the_quest_completion() {
    let mut game = game_with_the_axe_quest_open();
    game.player.grant_recipe("Stone Axe");
    game.player.inventory.insert(Item::Branch, 1);
    game.player.inventory.insert(Item::Stone, 1);
    game.player.inventory.insert(Item::Cord, 1);

    game.craft("Stone Axe");

    let kinds: Vec<&EventKind> = game.events().iter().rev().take(2).map(Event::kind).collect();
    assert_eq!(
        kinds,
        [
            &EventKind::QuestCompleted { quest: QuestID::CraftAxe },
            &EventKind::Crafted { output: Item::StoneAxe },
        ]
    );
}

#[test]
fn mod_crafting_a_different_item_does_not_advance_quest_progress() {
    let mut game = game_with_the_axe_quest_open();
    game.player.grant_recipe("Cord");
    game.player.inventory.insert(Item::Vine, 2);

    game.craft("Cord");

    assert_eq!(game.player.quest_progress(), 0);
    assert_eq!(game.player.open_quest(), Some(QuestID::CraftAxe));
}

#[test]
fn experimenting_the_target_item_also_counts_toward_the_quest() {
    let mut game = game_with_the_axe_quest_open();
    game.player.inventory.insert(Item::Branch, 1);
    game.player.inventory.insert(Item::Stone, 1);
    game.player.inventory.insert(Item::Cord, 1);

    game.experiment(&[(Item::Branch, 1), (Item::Stone, 1), (Item::Cord, 1)]);

    assert!(game.player.completed_quests().contains(&QuestID::CraftAxe));
}

#[test]
fn experimenting_the_target_item_logs_the_experiment_before_the_quest_completion() {
    let mut game = game_with_the_axe_quest_open();
    game.player.inventory.insert(Item::Branch, 1);
    game.player.inventory.insert(Item::Stone, 1);
    game.player.inventory.insert(Item::Cord, 1);

    game.experiment(&[(Item::Branch, 1), (Item::Stone, 1), (Item::Cord, 1)]);

    let kinds: Vec<&EventKind> = game.events().iter().rev().take(2).map(Event::kind).collect();
    assert_eq!(
        kinds,
        [
            &EventKind::QuestCompleted { quest: QuestID::CraftAxe },
            &EventKind::Experimented {
                items: vec![(Item::Branch, 1), (Item::Stone, 1), (Item::Cord, 1)],
                output: Item::StoneAxe,
                newly_learned: true,
            },
        ]
    );
}

#[test]
fn available_quests_follow_the_dependency_chain() {
    let ids = |game: &Game| -> Vec<QuestID> { game.available_quests().iter().map(|q| q.id).collect() };

    let mut game = Game::default();
    assert_eq!(ids(&game), [QuestID::ExploreRuins]);

    game.accept_quest(QuestID::ExploreRuins).unwrap();
    assert!(ids(&game).is_empty(), "the open quest drops off the list");

    game.player.restore_quest_state(None, 0, vec![QuestID::ExploreRuins]);
    assert_eq!(ids(&game), [QuestID::OldCivilization]);
}

/// A quest of its own, with a reward of experience and items.
fn fixture_quest() -> Quest {
    Quest {
        id: QuestID::CraftAxe,
        dependencies: vec![QuestID::ExploreRuins],
        condition: QuestCondition {
            event: EventTypeID::CraftItem(Item::StoneAxe),
            count: 1,
        },
        reward_xp: 7,
        reward_items: vec![(Item::Cord, 2)],
        unlocks_on_accept: vec![],
        unlocks_on_complete: vec![],
    }
}

#[test]
fn mod_complete_open_quest_grants_reward_and_resets_quest_state() {
    let quest = fixture_quest();
    let mut game = Game::default();
    game.player.restore_quest_state(Some(quest.id), 1, vec![]);
    let xp_before = game.player.experience;

    game.complete_open_quest(&quest);

    assert_eq!(game.player.open_quest(), None);
    assert_eq!(game.player.quest_progress(), 0);
    assert_eq!(game.player.completed_quests(), &vec![quest.id]);
    assert_eq!(game.player.experience, xp_before + quest.reward_xp);
    assert_eq!(game.player.inventory.get(&Item::Cord), Some(&2));
    assert_eq!(
        last_event(&game).kind(),
        &EventKind::QuestCompleted { quest: quest.id }
    );
}

#[test]
fn an_event_reports_when_it_was_logged() {
    let e = Event::new(EventKind::Awoke, 1500);
    assert_eq!(e.elapsed(), Duration::from_millis(1500));
}

#[test]
fn an_experiment_may_list_an_item_twice() {
    let mut game = Game::default();
    game.player.inventory.insert(Item::Vine, 4);

    game.experiment(&[(Item::Vine, 1), (Item::Vine, 1)]);

    assert_eq!(game.player.inventory.get(&Item::Vine), Some(&2));
    assert_eq!(
        last_event(&game).kind(),
        &EventKind::ExperimentFailed { items: vec![(Item::Vine, 1), (Item::Vine, 1)] }
    );
}

#[test]
fn a_repeated_item_is_short_once_the_earlier_entries_are_served() {
    let mut game = Game::default();
    game.player.inventory.insert(Item::Vine, 4);

    game.experiment(&[(Item::Vine, 3), (Item::Vine, 3)]);

    assert_eq!(game.player.inventory.get(&Item::Vine), Some(&4));
    assert_eq!(
        last_event(&game).kind(),
        &EventKind::ExperimentShortage {
            items: vec![(Item::Vine, 3), (Item::Vine, 3)],
            missing: Item::Vine,
            available: 1,
            needed: 3,
        }
    );
}
