//! The map panel: every tile with its world coordinates, and the colours
//! terrain is drawn in.

use vstd::prelude::*;
use crate::game::{GameMap, MapTile, Poi, TerrainType};
use crate::game::map::spec_tile_to_world;

verus! {

/// The colour a terrain is drawn in, as `(r, g, b)`.
pub open spec fn terrain_colour(t: TerrainType) -> (u8, u8, u8) {
    match t {
        TerrainType::Meadow => (0x7c, 0xb3, 0x42),
        TerrainType::Forest => (0x2f, 0x6d, 0x2f),
        TerrainType::Deadland => (0x33, 0x30, 0x2b),
    }
}

/// The colour a terrain is drawn in, as `(r, g, b)`.
pub fn terrain_rgb(terrain: TerrainType) -> (r: (u8, u8, u8))
    ensures
        r == terrain_colour(terrain),
{
    match terrain {
        TerrainType::Meadow => (0x7c, 0xb3, 0x42),
        TerrainType::Forest => (0x2f, 0x6d, 0x2f),
        TerrainType::Deadland => (0x33, 0x30, 0x2b),
    }
}

/// No two terrains share a colour.
pub proof fn lemma_colours_distinct(a: TerrainType, b: TerrainType)
    requires
        a != b,
    ensures
        terrain_colour(a) != terrain_colour(b),
{
}

/// The map is small enough for every tile and its neighbours to have world
/// coordinates.
pub open spec fn modest(m: &GameMap) -> bool {
    &&& 0 <= m.half <= 0x10_0000
    &&& m.tiles@.len() <= 0x10_0000
    &&& forall|y: int| 0 <= y < m.tiles@.len() ==> (#[trigger] m.tiles@[y])@.len() <= 0x10_0000
}

/// How many tiles the first `y` rows hold.
pub open spec fn tiles_before(m: &GameMap, y: int) -> nat
    decreases y,
{
    if y <= 0 {
        0
    } else {
        tiles_before(m, y - 1) + m.tiles@[y - 1]@.len()
    }
}

/// The world coordinates of tile `(x, y)`, as `i32`s.
pub open spec fn world_of(m: &GameMap, x: int, y: int) -> (i32, i32) {
    let w = spec_tile_to_world(m.half, x, y);
    (w.0 as i32, w.1 as i32)
}

/// Every tile with its world coordinates, row by row.
pub fn world_tiles(map: &GameMap) -> (r: Vec<((i32, i32), &MapTile)>)
    requires
        modest(map),
    ensures
        r@.len() == tiles_before(map, map.tiles@.len() as int),
        forall|x: int, y: int| 0 <= y < map.tiles@.len() && 0 <= x < map.tiles@[y]@.len() ==> {
            let e = #[trigger] r@[tiles_before(map, y) + x];
            e.0 == world_of(map, x, y) && *e.1 == map.tile_at(x, y)
        },
{
    let mut r: Vec<((i32, i32), &MapTile)> = Vec::new();
    let mut y: usize = 0;
    while y < map.tiles.len()
        invariant
            modest(map),
            y <= map.tiles@.len(),
            r@.len() == tiles_before(map, y as int),
            forall|x: int, j: int| 0 <= j < y && 0 <= x < map.tiles@[j]@.len() ==> {
                let e = #[trigger] r@[tiles_before(map, j) + x];
                e.0 == world_of(map, x, j) && *e.1 == map.tile_at(x, j)
            },
        decreases map.tiles.len() - y,
    {
        let row = &map.tiles[y];
        let mut x: usize = 0;
        proof {
            lemma_tiles_before_mono(map, y as int);
        }
        while x < row.len()
            invariant
                modest(map),
                y < map.tiles@.len(),
                row@ == map.tiles@[y as int]@,
                x <= row@.len(),
                r@.len() == tiles_before(map, y as int) + x,
                forall|a: int, j: int| 0 <= j < y && 0 <= a < map.tiles@[j]@.len() ==> {
                    let e = #[trigger] r@[tiles_before(map, j) + a];
                    e.0 == world_of(map, a, j) && *e.1 == map.tile_at(a, j)
                },
                forall|j: int| 0 <= j < y ==> tiles_before(map, j) + map.tiles@[j]@.len() <= #[trigger] tiles_before(map, y as int),
                forall|a: int| 0 <= a < x ==> {
                    let e = #[trigger] r@[tiles_before(map, y as int) + a];
                    e.0 == world_of(map, a, y as int) && *e.1 == map.tile_at(a, y as int)
                },
            decreases row.len() - x,
        {
            let w = map.tile_to_world(x, y);
            r.push((w, &row[x]));
            x = x + 1;
        }
        y = y + 1;
    }
    r
}

proof fn lemma_tiles_before_mono(m: &GameMap, y: int)
    requires
        0 <= y <= m.tiles@.len(),
    ensures
        forall|j: int| 0 <= j < y ==> tiles_before(m, j) + m.tiles@[j]@.len() <= #[trigger] tiles_before(m, y),
    decreases y,
{
    if y > 0 {
        lemma_tiles_before_mono(m, y - 1);
    }
}

/// One tile as the map panel draws it: where it is, what it is, and the
/// terrain of its four neighbours (north, east, south, west; `None` past the
/// edge).
pub struct TileView {
    pub world: (i32, i32),
    pub terrain: TerrainType,
    pub poi: Option<Poi>,
    pub neighbours: [Option<TerrainType>; 4],
}

/// The terrain at world position `pos`, if the map has a tile there.
pub open spec fn terrain_at(m: &GameMap, pos: (i32, i32)) -> Option<TerrainType> {
    match m.tile_index(pos) {
        Some((x, y)) => Some(m.tile_at(x, y).terrain_type),
        None => None,
    }
}

fn terrain_of(map: &GameMap, pos: (i32, i32)) -> (r: Option<TerrainType>)
    ensures
        r == terrain_at(map, pos),
{
    match map.get_tile(pos) {
        Some(t) => Some(t.terrain_type),
        None => None,
    }
}

/// Every tile as the map panel draws it, row by row.
pub fn tile_views(map: &GameMap) -> (r: Vec<TileView>)
    requires
        modest(map),
    ensures
        r@.len() == tiles_before(map, map.tiles@.len() as int),
        forall|x: int, y: int| 0 <= y < map.tiles@.len() && 0 <= x < map.tiles@[y]@.len() ==> #[trigger] view_ok(map, r@[tiles_before(map, y) + x], x, y),
{
    let mut r: Vec<TileView> = Vec::new();
    let mut y: usize = 0;
    while y < map.tiles.len()
        invariant
            modest(map),
            y <= map.tiles@.len(),
            r@.len() == tiles_before(map, y as int),
            forall|x: int, j: int| 0 <= j < y && 0 <= x < map.tiles@[j]@.len() ==> #[trigger] view_ok(map, r@[tiles_before(map, j) + x], x, j),
        decreases map.tiles.len() - y,
    {
        let row = &map.tiles[y];
        let mut x: usize = 0;
        proof {
            lemma_tiles_before_mono(map, y as int);
        }
        while x < row.len()
            invariant
                modest(map),
                y < map.tiles@.len(),
                row@ == map.tiles@[y as int]@,
                x <= row@.len(),
                r@.len() == tiles_before(map, y as int) + x,
                forall|a: int, j: int| 0 <= j < y && 0 <= a < map.tiles@[j]@.len() ==> #[trigger] view_ok(map, r@[tiles_before(map, j) + a], a, j),
                forall|j: int| 0 <= j < y ==> tiles_before(map, j) + map.tiles@[j]@.len() <= #[trigger] tiles_before(map, y as int),
                forall|a: int| 0 <= a < x ==> #[trigger] view_ok(map, r@[tiles_before(map, y as int) + a], a, y as int),
            decreases row.len() - x,
        {
            let (wx, wy) = map.tile_to_world(x, y);
            let tile = &row[x];
            let neighbours = [
                terrain_of(map, (wx, wy + 1)),
                terrain_of(map, (wx + 1, wy)),
                terrain_of(map, (wx, wy - 1)),
                terrain_of(map, (wx - 1, wy)),
            ];
            let v = TileView { world: (wx, wy), terrain: tile.terrain_type, poi: tile.poi, neighbours };
            proof {
                assert(view_ok(map, v, x as int, y as int));
            }
            r.push(v);
            x = x + 1;
        }
        y = y + 1;
    }
    r
}

/// `v` draws tile `(x, y)` of `m`.
pub open spec fn view_ok(m: &GameMap, v: TileView, x: int, y: int) -> bool {
    let (wx, wy) = world_of(m, x, y);
    &&& v.world == (wx, wy)
    &&& v.terrain == m.tile_at(x, y).terrain_type
    &&& v.poi == m.tile_at(x, y).poi
    &&& v.neighbours@ == seq![
        terrain_at(m, (wx, (wy + 1) as i32)),
        terrain_at(m, ((wx + 1) as i32, wy)),
        terrain_at(m, (wx, (wy - 1) as i32)),
        terrain_at(m, ((wx - 1) as i32, wy)),
    ]
}

} // verus!
