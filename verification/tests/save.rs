use the_bug::game::{EventKind, Game, Item, Poi, QuestID, TerrainType};
use the_bug::save::{
    capture, parse_pois, parse_terrain, poi_code, poi_from_code, restore, save_filename,
    terrain_code, terrain_from_code, EventState, MapState, PlayerState, SaveError, SaveState,
};

fn roundtrip(game: &Game) -> Game {
    restore(capture(game)).unwrap()
}

/// A save of a level-one player at the origin with nothing, on the given
/// map, with the given events.
fn hand_made(terrain: &[&str], pois: &[&str], events: Vec<EventState>, elapsed_ms: u64) -> SaveState {
    SaveState {
        elapsed_ms,
        player: PlayerState {
            level: 1,
            experience: 0,
            crafts_completed: 0,
            coordinates: (0, 0),
            inventory: vec![],
            bag: vec![],
            recipes: vec![],
            open_quest: None,
            quest_progress: 0,
            quests_completed: vec![],
        },
        map: MapState {
            terrain: terrain.iter().map(|s| s.to_string()).collect(),
            pois: pois.iter().map(|s| s.to_string()).collect(),
        },
        events,
    }
}

fn assert_elapsed_near(game: &Game, secs: f64) {
    let got = game.elapsed().as_secs_f64();
    assert!((got - secs).abs() < 2.0, "game.elapsed() = {got:.1}s, expected ~{secs:.1}s");
}

#[test]
fn save_filename_is_json_with_epoch() {
    assert_eq!(save_filename(1788436884), "the-bug-save-1788436884.json");
}

#[test]
fn default_game_round_trips() {
    let game = Game::default();
    let restored = roundtrip(&game);

    assert_eq!(restored.player.level, game.player.level);
    assert_eq!(restored.player.coordinates, game.player.coordinates);
    assert_eq!(restored.events().len(), game.events().len());
    assert_eq!(restored.map.tiles.len(), game.map.tiles.len());
    assert_eq!(restored.map.half, game.map.half);
}

#[test]
fn played_game_state_survives_round_trip() {
    let mut game = Game::default();
    game.player.coordinates = (2, -1);
    game.player.inventory.insert(Item::Vine, 5);
    game.player.inventory.insert(Item::Branch, 1);
    game.player.grant_recipe("Cord");

    let restored = roundtrip(&game);

    assert_eq!(restored.player.coordinates, (2, -1));
    assert_eq!(restored.player.inventory.get(&Item::Vine), Some(&5));
    assert_eq!(restored.player.inventory.get(&Item::Branch), Some(&1));
    let recipes: Vec<&str> = restored.player.known_recipes().iter().map(|r| r.name()).collect();
    assert_eq!(recipes, ["Cord"]);
}

#[test]
fn bag_survives_round_trip() {
    let mut game = Game::default();
    game.player.bag.insert(Item::Vine, 4);
    game.player.bag.insert(Item::Branch, 1);

    let restored = roundtrip(&game);

    assert_eq!(restored.player.bag.get(&Item::Vine), Some(&4));
    assert_eq!(restored.player.bag.get(&Item::Branch), Some(&1));
}

#[test]
fn player_without_a_bag_field_defaults_to_an_empty_bag() {
    let game = restore(hand_made(&["M"], &[], vec![], 0)).unwrap();
    assert!(game.player.bag.is_empty());
}

#[test]
fn game_time_is_restored_from_the_save_not_inferred_from_the_events() {
    let events = vec![EventState { kind: EventKind::Awoke, elapsed_ms: 0 }];
    let game = restore(hand_made(&["M"], &[], events, 3_600_000)).unwrap();
    assert_elapsed_near(&game, 3600.0);
}

#[test]
fn a_save_without_a_game_time_falls_back_to_the_last_event() {
    let events = vec![EventState { kind: EventKind::Awoke, elapsed_ms: 4_500 }];
    let game = restore(hand_made(&["M"], &[], events, 0)).unwrap();
    assert_elapsed_near(&game, 4.5);
}

#[test]
fn game_time_survives_a_round_trip() {
    let fresh = Game::default();
    let game = Game::from_saved(fresh.player, fresh.map, Vec::new(), 1_000_000);

    let restored = roundtrip(&game);

    assert_elapsed_near(&restored, 1000.0);
}

#[test]
fn event_kind_survives_round_trip() {
    let mut game = Game::default();
    game.player.inventory.insert(Item::Vine, 2);
    game.experiment(&[(Item::Vine, 2)]);

    let restored = roundtrip(&game);
    let kind = restored.events().last().unwrap().kind();
    assert_eq!(
        kind,
        &EventKind::Experimented {
            items: vec![(Item::Vine, 2)],
            output: Item::Cord,
            newly_learned: true,
        }
    );
}

#[test]
fn experience_and_craft_count_survive_round_trip() {
    let mut game = Game::default();
    game.player.experience = 37;
    game.player.crafts_completed = 4;

    let restored = roundtrip(&game);
    assert_eq!(restored.player.experience, 37);
    assert_eq!(restored.player.crafts_completed, 4);
}

#[test]
fn player_without_experience_fields_defaults_to_zero() {
    let game = restore(hand_made(&["M"], &[], vec![], 0)).unwrap();
    assert_eq!(game.player.experience, 0);
    assert_eq!(game.player.crafts_completed, 0);
}

#[test]
fn unknown_recipe_names_are_skipped() {
    let mut save = hand_made(&["M"], &[], vec![], 0);
    save.player.recipes = vec!["Cord".to_string(), "Nonsense".to_string()];
    let game = restore(save).unwrap();
    let recipes: Vec<&str> = game.player.known_recipes().iter().map(|r| r.name()).collect();
    assert_eq!(recipes, ["Cord"]);
}

#[test]
fn open_quest_and_progress_survive_round_trip() {
    let mut game = Game::default();
    game.player.restore_quest_state(Some(QuestID::CraftAxe), 3, vec![]);

    let restored = roundtrip(&game);

    assert_eq!(restored.player.open_quest(), Some(QuestID::CraftAxe));
    assert_eq!(restored.player.quest_progress(), 3);
}

#[test]
fn completed_quests_survive_round_trip() {
    let mut game = Game::default();
    game.player.restore_quest_state(None, 0, vec![QuestID::CraftAxe, QuestID::ExploreRuins]);

    let restored = roundtrip(&game);

    assert_eq!(restored.player.completed_quests(), &vec![QuestID::CraftAxe, QuestID::ExploreRuins]);
}

#[test]
fn player_without_quest_fields_defaults_to_no_quests() {
    let game = restore(hand_made(&["M"], &[], vec![], 0)).unwrap();
    assert_eq!(game.player.open_quest(), None);
    assert_eq!(game.player.quest_progress(), 0);
    assert!(game.player.completed_quests().is_empty());
}

#[test]
fn ragged_terrain_grid_is_rejected() {
    let err = restore(hand_made(&["MF", "M"], &[], vec![], 0)).err().unwrap();
    assert_eq!(err, SaveError::RaggedTerrain);
}

#[test]
fn unknown_terrain_code_is_rejected() {
    let err = restore(hand_made(&["MX"], &[], vec![], 0)).err().unwrap();
    assert_eq!(err, SaveError::UnknownTerrainCode('X'));
}

#[test]
fn terrain_codes_round_trip() {
    for terrain in [TerrainType::Meadow, TerrainType::Forest, TerrainType::Deadland] {
        assert_eq!(terrain_from_code(terrain_code(terrain)), Some(terrain));
    }
}

#[test]
fn poi_codes_round_trip() {
    for poi in [None, Some(Poi::Cave), Some(Poi::Ruins), Some(Poi::Village)] {
        assert_eq!(poi_from_code(poi_code(poi)), Some(poi));
    }
}

#[test]
fn pois_survive_a_full_save_round_trip() {
    let mut game = Game::default();
    let side = game.map.tiles.len();
    for tile in game.map.tiles.iter_mut().flatten() {
        tile.poi = None;
    }
    game.map.tiles[0][0].poi = Some(Poi::Cave);
    game.map.tiles[1][2].poi = Some(Poi::Ruins);
    game.map.tiles[side - 1][side - 1].poi = Some(Poi::Village);

    let restored = roundtrip(&game);

    assert_eq!(restored.map.tiles[0][0].poi, Some(Poi::Cave));
    assert_eq!(restored.map.tiles[1][2].poi, Some(Poi::Ruins));
    assert_eq!(restored.map.tiles[side - 1][side - 1].poi, Some(Poi::Village));
    assert_eq!(restored.map.tiles[0][1].poi, None);
}

#[test]
fn save_without_a_pois_grid_loads_with_no_pois() {
    let game = restore(hand_made(&["FMF", "M.M", "FMM"], &[], vec![], 0)).unwrap();
    assert!(game.map.tiles.iter().flatten().all(|t| t.poi.is_none()));
}

#[test]
fn load_reads_a_hand_edited_pois_grid() {
    let game = restore(hand_made(&["FMF", "M.M", "FM."], &["c..", "...", "..v"], vec![], 0)).unwrap();
    assert_eq!(game.map.tiles[0][0].poi, Some(Poi::Cave));
    assert_eq!(game.map.tiles[2][2].poi, Some(Poi::Village));
    assert_eq!(game.map.tiles[1][1].poi, None);
}

#[test]
fn a_pois_grid_that_does_not_match_the_terrain_is_rejected() {
    let err = restore(hand_made(&["FMF", "M.M", "FMM"], &["c.", "..", ".."], vec![], 0)).err().unwrap();
    assert_eq!(err, SaveError::PoisMismatch);
}

#[test]
fn load_reads_a_hand_edited_file() {
    let mut save = hand_made(
        &["FMF", "M.M", "FMM"],
        &["c..", "...", "..r"],
        vec![EventState { kind: EventKind::Awoke, elapsed_ms: 4_500 }],
        0,
    );
    save.player.level = 3;
    save.player.inventory = vec![(Item::Vine, 9), (Item::Stone, 2)];
    save.player.recipes = vec!["Cord".to_string()];

    let game = restore(save).unwrap();

    assert_eq!(game.player.level, 3);
    assert_eq!(game.player.inventory.get(&Item::Vine), Some(&9));
    assert_eq!(game.map.tiles.len(), 3);
    assert_eq!(game.map.half, 1);
    assert_eq!(game.events().len(), 1);
    assert_eq!(game.events()[0].kind(), &EventKind::Awoke);
}

#[test]
fn terrain_rows_parse_into_a_grid_or_name_the_first_fault() {
    let rows = vec!["MF.".to_string(), ".FM".to_string()];
    let grid = parse_terrain(&rows).unwrap();
    assert_eq!(grid[0], vec![TerrainType::Meadow, TerrainType::Forest, TerrainType::Deadland]);
    assert_eq!(grid[1][2], TerrainType::Meadow);

    assert_eq!(parse_terrain(&vec![]).err(), Some(SaveError::RaggedTerrain));
    assert_eq!(parse_terrain(&vec![String::new()]).err(), Some(SaveError::RaggedTerrain));
    let bad = vec!["MQ".to_string(), "ZM".to_string()];
    assert_eq!(parse_terrain(&bad).err(), Some(SaveError::UnknownTerrainCode('Q')));
    let ragged_and_bad = vec!["MQ".to_string(), "M".to_string()];
    assert_eq!(parse_terrain(&ragged_and_bad).err(), Some(SaveError::RaggedTerrain));
}

#[test]
fn poi_rows_default_to_none_and_must_match_the_terrain() {
    let empty = parse_pois(&vec![], 2, 3).unwrap();
    assert_eq!(empty, vec![vec![None; 3]; 2]);

    let rows = vec!["c v".to_string(), ".r.".to_string()];
    let grid = parse_pois(&rows, 2, 3).unwrap();
    assert_eq!(grid[0], vec![Some(Poi::Cave), None, Some(Poi::Village)]);
    assert_eq!(grid[1][1], Some(Poi::Ruins));

    assert_eq!(parse_pois(&rows, 3, 3).err(), Some(SaveError::PoisMismatch));
    assert_eq!(parse_pois(&rows, 2, 2).err(), Some(SaveError::PoisMismatch));
    let bad = vec!["..x".to_string(), "...".to_string()];
    assert_eq!(parse_pois(&bad, 2, 3).err(), Some(SaveError::UnknownPoiCode('x')));
}

#[test]
fn restoring_keeps_the_log_and_its_times() {
    let events = vec![
        EventState { kind: EventKind::Awoke, elapsed_ms: 0 },
        EventState { kind: EventKind::Crafted { output: Item::Cord }, elapsed_ms: 2_000 },
    ];
    let game = restore(hand_made(&["M"], &[], events, 0)).unwrap();
    assert_eq!(game.events().len(), 2);
    assert_eq!(game.events()[1].kind(), &EventKind::Crafted { output: Item::Cord });
    assert_eq!(game.events()[1].elapsed_millis(), 2_000);
    assert_eq!(game.latest_ms, 2_000);
}
