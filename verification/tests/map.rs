use std::collections::HashMap;
use std::collections::HashSet;

use the_bug::game::growth::block_bounds;
use the_bug::game::map::{decayed_probability, CERTAIN, DECAY_WINDOW_MS, MAP_SIZE};
use the_bug::game::{FoundIn, GameMap, Item, MapTile, Poi, TerrainType};
use the_bug::mapgen::generator::components;
use the_bug::mapgen::Terrain;
use the_bug::viewmodel::map::{tile_views, world_tiles};

fn terrain_grid(map: &GameMap) -> Vec<Vec<TerrainType>> {
    map.tiles.iter().map(|row| row.iter().map(|tile| tile.terrain_type).collect()).collect()
}

#[test]
fn map_world_to_tile_corners() {
    let map = GameMap::new();
    let h = map.half;
    assert_eq!(map.world_to_tile((-h, -h)), (0usize, 0usize));
    let last = map.tiles.len() - 1;
    assert_eq!(map.world_to_tile((h, h)), (last, last));
}

#[test]
fn world_to_tile_center_is_the_village() {
    let map = GameMap::new();
    let (cx, cy) = map.world_to_tile((0, 0));
    let tile = map.get_tile((0, 0)).expect("center tile exists");
    assert_eq!(tile.poi, Some(Poi::Village));
    let mid = map.tiles.len() / 2;
    assert_eq!((cx, cy), (mid, mid));
}

#[test]
fn map_world_to_tile_out_of_bounds() {
    let map = GameMap::new();
    let outside = (map.half + 1, map.half + 1);
    assert!(map.get_tile(outside).is_none());
}

#[test]
fn contains_agrees_with_get_tile_on_an_odd_map() {
    let map = GameMap::new();
    let h = map.half;
    for pos in [(-h - 1, 0), (h + 1, 0), (0, -h - 1), (0, h + 1), (-h, -h), (h, h), (0, 0)] {
        assert_eq!(map.contains(pos), map.get_tile(pos).is_some(), "at {pos:?}");
    }
}

#[test]
fn contains_agrees_with_get_tile_on_an_even_map() {
    let terrain = vec![vec![TerrainType::Meadow; 4]; 4];
    let pois = vec![vec![None; 4]; 4];
    let map = GameMap::from_terrain(terrain, pois);
    assert_eq!(map.half, 2);

    for x in -3..=3 {
        for y in -3..=3 {
            assert_eq!(map.contains((x, y)), map.get_tile((x, y)).is_some(), "at ({x}, {y})");
        }
    }
    assert!(!map.contains((2, 0)));
    assert!(map.contains((1, 0)));
}

#[test]
fn map_tile_to_world_round_trips_with_world_to_tile() {
    let map = GameMap::new();
    for pos in [(0, 0), (3, -2), (map.half, -map.half)] {
        let (x, y) = map.world_to_tile(pos);
        assert_eq!(map.tile_to_world(x, y), pos);
    }
}

#[test]
fn map_adjust_probability_tests() {
    let base = 600_000u32;
    assert_eq!(decayed_probability(base, None), base);
    // half the window ago: half the odds
    assert_eq!(decayed_probability(base, Some(DECAY_WINDOW_MS / 2)), base / 2);
    // a full window or more ago: the odds are back
    assert_eq!(decayed_probability(base, Some(DECAY_WINDOW_MS)), base);
    assert_eq!(decayed_probability(base, Some(2 * DECAY_WINDOW_MS)), base);
    // just now: no odds
    assert_eq!(decayed_probability(base, Some(0)), 0);
}

#[test]
fn new_map_is_fixed_size_with_only_the_centre_block_populated() {
    let map = GameMap::new();
    assert_eq!(map.tiles.len(), MAP_SIZE);
    assert!(map.tiles.iter().all(|row| row.len() == MAP_SIZE));
    assert_eq!(map.get_tile((0, 0)).unwrap().poi, Some(Poi::Village));

    for block in [(0, 0), (1, 0), (2, 0), (0, 1), (2, 1), (0, 2), (1, 2), (2, 2)] {
        assert!(map.block_is_ungenerated(block), "block {block:?} should still be Deadland at level 1");
    }
}

#[test]
fn reveal_for_level_generates_every_newly_unlocked_block_and_is_idempotent() {
    let mut map = GameMap::new();
    assert!(!map.block_is_ungenerated((1, 1)));

    map.reveal_for_level(5);
    for block in [(1, 0), (0, 0), (0, 1), (2, 0), (2, 1), (0, 2), (1, 2), (2, 2)] {
        assert!(!map.block_is_ungenerated(block), "block {block:?} should be generated by level 5");
    }

    let before = terrain_grid(&map);
    map.reveal_for_level(5);
    assert_eq!(terrain_grid(&map), before);
}

#[test]
fn is_unlocked_gates_by_level_on_a_real_map_but_not_on_a_test_fixture() {
    let map = GameMap::new();
    assert!(map.is_unlocked((0, 0), 1));
    let ((row_start, _), (col_start, _)) = block_bounds((1, 0));
    let level2_tile = map.tile_to_world(col_start, row_start);
    assert!(!map.is_unlocked(level2_tile, 1));
    assert!(map.is_unlocked(level2_tile, 2));

    let small = GameMap::from_terrain(vec![vec![TerrainType::Meadow; 3]; 3], vec![vec![None; 3]; 3]);
    assert!(small.is_unlocked((0, 0), 1));
    assert!(small.is_unlocked((1, 1), 1));
}

#[test]
fn revealing_every_block_places_poi_overlays_at_the_expected_density() {
    let mut map = GameMap::new();
    map.reveal_for_level(5);

    let count = |want: Poi| map.tiles.iter().flatten().filter(|t| t.poi == Some(want)).count();
    // each of the 9 blocks of 17 x 17 tiles gets its own quota: 5% and 2%
    // of 289, rounded
    assert_eq!(count(Poi::Cave), 14 * 9);
    assert_eq!(count(Poi::Ruins), 6 * 9);
    assert_eq!(map.get_tile((0, 0)).unwrap().poi, Some(Poi::Village));
}

#[test]
fn a_poi_tile_yields_its_terrain_items_and_its_poi_items() {
    let tile = MapTile::with_terrain_and_poi(TerrainType::Forest, Some(Poi::Cave));
    let source_of = |item: Item| tile.items.iter().find(|e| e.0 == item).map(|e| e.2);
    assert_eq!(source_of(Item::Branch), Some(FoundIn::Terrain(TerrainType::Forest)));
    assert_eq!(source_of(Item::Stone), Some(FoundIn::Poi(Poi::Cave)));
}

#[test]
fn hunt_items_are_the_terrains_fauna_and_deadland_has_none() {
    let meadow: HashSet<Item> =
        MapTile::with_terrain(TerrainType::Meadow).hunt_items.iter().map(|e| e.0).collect();
    assert_eq!(meadow, [Item::Meat, Item::Hide, Item::Bone, Item::Fur].into_iter().collect());
    assert!(MapTile::with_terrain(TerrainType::Deadland).hunt_items.is_empty());
}

#[test]
fn roll_hunted_items_returns_everything_at_full_odds_and_nothing_when_barren() {
    let mut sure = MapTile::with_terrain(TerrainType::Forest);
    for e in sure.hunt_items.iter_mut() {
        e.1 = CERTAIN;
    }
    let bag: HashSet<Item> = sure.roll_hunted_items().into_iter().collect();
    assert_eq!(bag, sure.hunt_items.iter().map(|e| e.0).collect());

    let barren = MapTile::with_terrain(TerrainType::Deadland);
    assert!(barren.roll_hunted_items().is_empty());
}

#[test]
fn hunting_with_fixed_rolls_keeps_exactly_the_rolls_under_the_odds() {
    let tile = MapTile::with_terrain(TerrainType::Meadow);
    let game: Vec<(Item, u32)> = tile.hunt_items.clone();
    // one roll per entry: just under each chance keeps it, at the chance drops it
    let keep_all: Vec<u64> = game.iter().map(|e| e.1 as u64 - 1).collect();
    assert_eq!(tile.hunted_with_rolls(None, &keep_all), game.iter().map(|e| e.0).collect::<Vec<_>>());
    let keep_none: Vec<u64> = game.iter().map(|e| e.1 as u64).collect();
    assert!(tile.hunted_with_rolls(None, &keep_none).is_empty());
}

#[test]
fn revealed_blocks_have_clustered_not_confetti_terrain() {
    let total: usize = (0..5)
        .map(|_| {
            let mut map = GameMap::new();
            map.reveal_for_level(5);
            let grid: Vec<Vec<Terrain>> = terrain_grid(&map)
                .iter()
                .map(|row| {
                    row.iter()
                        .map(|t| match t {
                            TerrainType::Meadow => Terrain::Meadow,
                            TerrainType::Forest => Terrain::Forest,
                            TerrainType::Deadland => Terrain::Deadland,
                        })
                        .collect()
                })
                .collect();
            [Terrain::Forest, Terrain::Meadow, Terrain::Deadland]
                .into_iter()
                .map(|t| components(&grid, t))
                .sum::<usize>()
        })
        .sum();
    let average = total / 5;
    assert!(average < 130 * 9, "terrain barely clustered: {average} components on average");
}

#[test]
fn visits_every_tile() {
    let map = GameMap::new();
    let side = map.tiles.len();
    assert_eq!(world_tiles(&map).len(), side * side);
}

#[test]
fn origin_carries_the_village_poi() {
    let map = GameMap::new();
    let (_, tile) = world_tiles(&map).into_iter().find(|&(coords, _)| coords == (0, 0)).expect("a tile at the origin");
    assert_eq!(tile.poi, Some(Poi::Village));
}

#[test]
fn tile_views_pairs_every_world_coord_with_its_terrain() {
    let map = GameMap::new();
    let from_views: Vec<_> = tile_views(&map).iter().map(|t| (t.world, t.terrain)).collect();
    let from_world_tiles: Vec<_> = world_tiles(&map).iter().map(|(world, tile)| (*world, tile.terrain_type)).collect();
    assert_eq!(from_views, from_world_tiles);
}

#[test]
fn tile_views_reports_the_village_poi_at_the_origin() {
    let map = GameMap::new();
    let views = tile_views(&map);
    let origin = views.iter().find(|t| t.world == (0, 0)).expect("a tile at the origin");
    assert_eq!(origin.poi, Some(Poi::Village));
}

#[test]
fn tile_views_reports_each_tiles_four_neighbours() {
    let map = GameMap::new();
    let by_coord: HashMap<(i32, i32), TerrainType> =
        world_tiles(&map).iter().map(|(world, tile)| (*world, tile.terrain_type)).collect();

    let views = tile_views(&map);
    let origin = views.iter().find(|t| t.world == (0, 0)).unwrap();
    assert_eq!(
        origin.neighbours,
        [
            by_coord.get(&(0, 1)).copied(),
            by_coord.get(&(1, 0)).copied(),
            by_coord.get(&(0, -1)).copied(),
            by_coord.get(&(-1, 0)).copied(),
        ]
    );
}

#[test]
fn tile_views_has_none_neighbours_past_the_map_edge() {
    let map = GameMap::new();
    let h = map.half;
    let views = tile_views(&map);
    let corner = views.iter().find(|t| t.world == (h, h)).unwrap();
    assert_eq!(corner.neighbours[0], None, "North off the map");
    assert_eq!(corner.neighbours[1], None, "East off the map");
    assert!(corner.neighbours[2].is_some(), "South on the map");
    assert!(corner.neighbours[3].is_some(), "West on the map");
}
