//! The save-file shape: plain records of the game's state, the one-character
//! codes a map is written in, and capturing a game into that shape and
//! restoring it back. Reading and writing the file itself, and the JSON,
//! happen outside the library.

use vstd::prelude::*;
use vstd::string::*;
use crate::game::{Event, EventKind, EventView, Game, GameMap, Item, MapTile, Player, Poi, QuestID, RecipeView, TerrainType, named, latest_time};
use crate::game::counts::{ItemCounts, pairs_map, lists_entries, lemma_listed_entries_map};
use crate::game::map::{tile_finds, terrain_game};
use crate::game::player::names_of;
use crate::game::recipe::recipe_book;
use crate::viewmodel::events::{decimal, push_decimal};
use crate::seqs::{copy_vec, first_where, lemma_first_where_at, lemma_first_where_none};

verus! {

/// Why a saved map could not be restored.
#[derive(Clone, Copy, Debug, PartialEq, Eq)]
pub enum SaveError {
    /// The terrain rows are empty, or not all of one non-zero length.
    RaggedTerrain,
    /// A terrain row holds a character that names no terrain.
    UnknownTerrainCode(char),
    /// The POI grid is present but its shape differs from the terrain's.
    PoisMismatch,
    /// A POI row holds a character that names no POI.
    UnknownPoiCode(char),
}

/// The save-file character of a terrain.
pub open spec fn terrain_code_of(t: TerrainType) -> char {
    match t {
        TerrainType::Meadow => 'M',
        TerrainType::Forest => 'F',
        TerrainType::Deadland => '.',
    }
}

/// The terrain a save-file character names, if any.
pub open spec fn terrain_of_code(c: char) -> Option<TerrainType> {
    if c == 'M' {
        Some(TerrainType::Meadow)
    } else if c == 'F' {
        Some(TerrainType::Forest)
    } else if c == '.' {
        Some(TerrainType::Deadland)
    } else {
        None
    }
}

/// The save-file character of a tile's point of interest; `.` for none.
pub open spec fn poi_code_of(p: Option<Poi>) -> char {
    match p {
        None => '.',
        Some(Poi::Cave) => 'c',
        Some(Poi::Ruins) => 'r',
        Some(Poi::Village) => 'v',
    }
}

/// The point of interest a save-file character names (`.` and a space both
/// name none), if the character is a POI code at all.
pub open spec fn poi_of_code(c: char) -> Option<Option<Poi>> {
    if c == '.' || c == ' ' {
        Some(None)
    } else if c == 'c' {
        Some(Some(Poi::Cave))
    } else if c == 'r' {
        Some(Some(Poi::Ruins))
    } else if c == 'v' {
        Some(Some(Poi::Village))
    } else {
        None
    }
}

/// A terrain's code reads back as that terrain, and a code that reads as a
/// terrain is that terrain's code.
pub proof fn lemma_terrain_code_round_trip(t: TerrainType, c: char)
    ensures
        terrain_of_code(terrain_code_of(t)) == Some(t),
        terrain_of_code(c) == Some(t) ==> terrain_code_of(t) == c,
{
}

/// A POI's code reads back as that POI, and a code that reads as a POI is
/// that POI's code, a space aside, which also reads as none.
pub proof fn lemma_poi_code_round_trip(p: Option<Poi>, c: char)
    ensures
        poi_of_code(poi_code_of(p)) == Some(p),
        poi_of_code(c) == Some(p) ==> poi_code_of(p) == c || (c == ' ' && p is None),
{
}

/// The single-character code for `terrain` in a saved map.
pub fn terrain_code(terrain: TerrainType) -> (r: char)
    ensures
        r == terrain_code_of(terrain),
{
    match terrain {
        TerrainType::Meadow => 'M',
        TerrainType::Forest => 'F',
        TerrainType::Deadland => '.',
    }
}

/// The terrain a saved-map character stands for, if any.
pub fn terrain_from_code(code: char) -> (r: Option<TerrainType>)
    ensures
        r == terrain_of_code(code),
{
    if code == 'M' {
        Some(TerrainType::Meadow)
    } else if code == 'F' {
        Some(TerrainType::Forest)
    } else if code == '.' {
        Some(TerrainType::Deadland)
    } else {
        None
    }
}

/// The single-character code for a tile's point of interest: `.` for none.
pub fn poi_code(poi: Option<Poi>) -> (r: char)
    ensures
        r == poi_code_of(poi),
{
    match poi {
        None => '.',
        Some(Poi::Cave) => 'c',
        Some(Poi::Ruins) => 'r',
        Some(Poi::Village) => 'v',
    }
}

/// The point of interest a saved-map character stands for: `Some(None)` for
/// `.` or a space, `None` for a character that is no POI code.
pub fn poi_from_code(code: char) -> (r: Option<Option<Poi>>)
    ensures
        r == poi_of_code(code),
{
    if code == '.' || code == ' ' {
        Some(None)
    } else if code == 'c' {
        Some(Some(Poi::Cave))
    } else if code == 'r' {
        Some(Some(Poi::Ruins))
    } else if code == 'v' {
        Some(Some(Poi::Village))
    } else {
        None
    }
}

/// The characters of each string.
pub open spec fn texts(rows: Seq<String>) -> Seq<Seq<char>> {
    rows.map_values(|s: String| s@)
}

/// The contents of each row of a grid.
pub open spec fn grid_view<T>(g: Seq<Vec<T>>) -> Seq<Seq<T>> {
    g.map_values(|row: Vec<T>| row@)
}

/// The character names no terrain.
pub open spec fn unknown_terrain() -> spec_fn(char) -> bool {
    |c: char| terrain_of_code(c) is None
}

/// The row holds a character that names no terrain.
pub open spec fn has_unknown_terrain() -> spec_fn(Seq<char>) -> bool {
    |row: Seq<char>| first_where(row, unknown_terrain()) is Some
}

/// The character names no point of interest.
pub open spec fn unknown_poi() -> spec_fn(char) -> bool {
    |c: char| poi_of_code(c) is None
}

/// The row holds a character that names no point of interest.
pub open spec fn has_unknown_poi() -> spec_fn(Seq<char>) -> bool {
    |row: Seq<char>| first_where(row, unknown_poi()) is Some
}

/// `rows` has `h` rows, each `w` characters long.
pub open spec fn is_grid<T>(rows: Seq<Seq<T>>, h: int, w: int) -> bool {
    &&& rows.len() == h
    &&& forall|y: int| 0 <= y < h ==> (#[trigger] rows[y]).len() == w
}

/// `rows` is a non-empty grid of equal, non-empty rows.
pub open spec fn is_terrain_shape(rows: Seq<Seq<char>>) -> bool {
    rows.len() > 0 && rows[0].len() > 0 && is_grid(rows, rows.len() as int, rows[0].len() as int)
}

/// What terrain rows read as: a ragged or empty grid is refused, then the
/// first unknown code in reading order; otherwise each code's terrain.
pub open spec fn parsed_terrain(rows: Seq<Seq<char>>) -> Result<Seq<Seq<TerrainType>>, SaveError> {
    if !is_terrain_shape(rows) {
        Err(SaveError::RaggedTerrain)
    } else {
        match first_where(rows, has_unknown_terrain()) {
            Some(row) => Err(SaveError::UnknownTerrainCode(first_where(row, unknown_terrain()).unwrap())),
            None => Ok(rows.map_values(|row: Seq<char>| row.map_values(|c: char| terrain_of_code(c).unwrap()))),
        }
    }
}

/// What POI rows read as beside an `h`×`w` terrain grid: no rows at all
/// read as a grid with no POIs; rows of another shape are refused; then
/// the first unknown code in reading order; otherwise each code's POI.
pub open spec fn parsed_pois(rows: Seq<Seq<char>>, h: int, w: int) -> Result<Seq<Seq<Option<Poi>>>, SaveError> {
    if rows.len() == 0 {
        Ok(Seq::new(h as nat, |y: int| Seq::new(w as nat, |x: int| None::<Poi>)))
    } else if !is_grid(rows, h, w) {
        Err(SaveError::PoisMismatch)
    } else {
        match first_where(rows, has_unknown_poi()) {
            Some(row) => Err(SaveError::UnknownPoiCode(first_where(row, unknown_poi()).unwrap())),
            None => Ok(rows.map_values(|row: Seq<char>| row.map_values(|c: char| poi_of_code(c).unwrap()))),
        }
    }
}

/// Reads one terrain row: each character's terrain, or the first character
/// that names none.
fn parse_terrain_row(row: &str) -> (r: Result<Vec<TerrainType>, char>)
    ensures
        match r {
            Ok(v) => first_where(row@, unknown_terrain()) is None
                && v@ == row@.map_values(|c: char| terrain_of_code(c).unwrap()),
            Err(c) => first_where(row@, unknown_terrain()) == Some(c),
        },
{
    let n = row.unicode_len();
    let mut v: Vec<TerrainType> = Vec::new();
    let mut x: usize = 0;
    while x < n
        invariant
            n == row@.len(),
            x <= n,
            v@.len() == x,
            forall|i: int| 0 <= i < x ==> terrain_of_code(#[trigger] row@[i]) is Some,
            forall|i: int| 0 <= i < x ==> #[trigger] v@[i] == terrain_of_code(row@[i]).unwrap(),
        decreases n - x,
    {
        let c = row.get_char(x);
        match terrain_from_code(c) {
            Some(t) => {
                v.push(t);
            },
            None => {
                proof {
                    lemma_first_where_at(row@, unknown_terrain(), x as int);
                }
                return Err(c);
            },
        }
        x = x + 1;
    }
    proof {
        lemma_first_where_none(row@, unknown_terrain());
    }
    assert(v@ =~= row@.map_values(|c: char| terrain_of_code(c).unwrap()));
    Ok(v)
}

/// Reads one POI row: each character's POI, or the first character that
/// names none.
fn parse_poi_row(row: &str) -> (r: Result<Vec<Option<Poi>>, char>)
    ensures
        match r {
            Ok(v) => first_where(row@, unknown_poi()) is None
                && v@ == row@.map_values(|c: char| poi_of_code(c).unwrap()),
            Err(c) => first_where(row@, unknown_poi()) == Some(c),
        },
{
    let n = row.unicode_len();
    let mut v: Vec<Option<Poi>> = Vec::new();
    let mut x: usize = 0;
    while x < n
        invariant
            n == row@.len(),
            x <= n,
            v@.len() == x,
            forall|i: int| 0 <= i < x ==> poi_of_code(#[trigger] row@[i]) is Some,
            forall|i: int| 0 <= i < x ==> #[trigger] v@[i] == poi_of_code(row@[i]).unwrap(),
        decreases n - x,
    {
        let c = row.get_char(x);
        match poi_from_code(c) {
            Some(p) => {
                v.push(p);
            },
            None => {
                proof {
                    lemma_first_where_at(row@, unknown_poi(), x as int);
                }
                return Err(c);
            },
        }
        x = x + 1;
    }
    proof {
        lemma_first_where_none(row@, unknown_poi());
    }
    assert(v@ =~= row@.map_values(|c: char| poi_of_code(c).unwrap()));
    Ok(v)
}

/// Parses the terrain rows of a saved map into a grid, refusing an empty or
/// ragged grid and an unknown terrain code.
pub fn parse_terrain(rows: &Vec<String>) -> (r: Result<Vec<Vec<TerrainType>>, SaveError>)
    ensures
        match r {
            Ok(g) => parsed_terrain(texts(rows@)) == Ok::<Seq<Seq<TerrainType>>, SaveError>(grid_view(g@)),
            Err(e) => parsed_terrain(texts(rows@)) == Err::<Seq<Seq<TerrainType>>, SaveError>(e),
        },
{
    let ghost t = texts(rows@);
    let h = rows.len();
    if h == 0 {
        return Err(SaveError::RaggedTerrain);
    }
    let w = rows[0].as_str().unicode_len();
    if w == 0 {
        return Err(SaveError::RaggedTerrain);
    }
    let mut y: usize = 0;
    while y < h
        invariant
            t == texts(rows@),
            h == rows@.len(),
            0 < h,
            w == t[0].len(),
            y <= h,
            forall|j: int| 0 <= j < y ==> (#[trigger] t[j]).len() == w,
        decreases h - y,
    {
        if rows[y].as_str().unicode_len() != w {
            assert(!is_terrain_shape(t)) by {
                assert(t[y as int].len() != w);
            }
            return Err(SaveError::RaggedTerrain);
        }
        y = y + 1;
    }
    assert(is_terrain_shape(t));
    let mut grid: Vec<Vec<TerrainType>> = Vec::new();
    let mut y: usize = 0;
    while y < h
        invariant
            t == texts(rows@),
            h == rows@.len(),
            is_terrain_shape(t),
            y <= h,
            grid@.len() == y,
            forall|j: int| 0 <= j < y ==> !has_unknown_terrain()(#[trigger] t[j]),
            forall|j: int| 0 <= j < y ==> (#[trigger] grid@[j])@
                == t[j].map_values(|c: char| terrain_of_code(c).unwrap()),
        decreases h - y,
    {
        match parse_terrain_row(rows[y].as_str()) {
            Ok(row) => {
                grid.push(row);
            },
            Err(c) => {
                proof {
                    assert(has_unknown_terrain()(t[y as int]));
                    lemma_first_where_at(t, has_unknown_terrain(), y as int);
                }
                return Err(SaveError::UnknownTerrainCode(c));
            },
        }
        y = y + 1;
    }
    proof {
        lemma_first_where_none(t, has_unknown_terrain());
        assert(grid_view(grid@) =~= t.map_values(|row: Seq<char>| row.map_values(|c: char| terrain_of_code(c).unwrap())));
    }
    Ok(grid)
}

/// Parses the POI rows of a saved map beside a `height`×`width` terrain
/// grid. No rows at all give a grid with no POIs; otherwise the rows must
/// have the terrain's shape and known codes.
pub fn parse_pois(rows: &Vec<String>, height: usize, width: usize) -> (r: Result<Vec<Vec<Option<Poi>>>, SaveError>)
    ensures
        match r {
            Ok(g) => parsed_pois(texts(rows@), height as int, width as int)
                == Ok::<Seq<Seq<Option<Poi>>>, SaveError>(grid_view(g@)),
            Err(e) => parsed_pois(texts(rows@), height as int, width as int)
                == Err::<Seq<Seq<Option<Poi>>>, SaveError>(e),
        },
{
    let ghost t = texts(rows@);
    let h = rows.len();
    if h == 0 {
        let mut grid: Vec<Vec<Option<Poi>>> = Vec::new();
        let mut y: usize = 0;
        while y < height
            invariant
                y <= height,
                grid@.len() == y,
                forall|j: int| 0 <= j < y ==> (#[trigger] grid@[j])@ == Seq::new(width as nat, |x: int| None::<Poi>),
            decreases height - y,
        {
            let mut row: Vec<Option<Poi>> = Vec::new();
            let mut x: usize = 0;
            while x < width
                invariant
                    x <= width,
                    row@ == Seq::new(x as nat, |i: int| None::<Poi>),
                decreases width - x,
            {
                row.push(None);
                x = x + 1;
                assert(row@ =~= Seq::new(x as nat, |i: int| None::<Poi>));
            }
            grid.push(row);
            y = y + 1;
        }
        assert(grid_view(grid@) =~= Seq::new(height as nat, |y: int| Seq::new(width as nat, |x: int| None::<Poi>)));
        return Ok(grid);
    }
    if h != height {
        return Err(SaveError::PoisMismatch);
    }
    let mut y: usize = 0;
    while y < h
        invariant
            t == texts(rows@),
            h == rows@.len(),
            y <= h,
            forall|j: int| 0 <= j < y ==> (#[trigger] t[j]).len() == width,
        decreases h - y,
    {
        if rows[y].as_str().unicode_len() != width {
            assert(!is_grid(t, height as int, width as int)) by {
                assert(t[y as int].len() != width);
            }
            return Err(SaveError::PoisMismatch);
        }
        y = y + 1;
    }
    assert(is_grid(t, height as int, width as int));
    let mut grid: Vec<Vec<Option<Poi>>> = Vec::new();
    let mut y: usize = 0;
    while y < h
        invariant
            t == texts(rows@),
            h == rows@.len(),
            h > 0,
            is_grid(t, height as int, width as int),
            y <= h,
            grid@.len() == y,
            forall|j: int| 0 <= j < y ==> !has_unknown_poi()(#[trigger] t[j]),
            forall|j: int| 0 <= j < y ==> (#[trigger] grid@[j])@
                == t[j].map_values(|c: char| poi_of_code(c).unwrap()),
        decreases h - y,
    {
        match parse_poi_row(rows[y].as_str()) {
            Ok(row) => {
                grid.push(row);
            },
            Err(c) => {
                proof {
                    assert(has_unknown_poi()(t[y as int]));
                    lemma_first_where_at(t, has_unknown_poi(), y as int);
                }
                return Err(SaveError::UnknownPoiCode(c));
            },
        }
        y = y + 1;
    }
    proof {
        lemma_first_where_none(t, has_unknown_poi());
        assert(grid_view(grid@) =~= t.map_values(|row: Seq<char>| row.map_values(|c: char| poi_of_code(c).unwrap())));
    }
    Ok(grid)
}

/// A saved map: one string per row of the grid, one character per tile.
pub struct MapState {
    /// Each tile's terrain code (see [`terrain_code`]).
    pub terrain: Vec<String>,
    /// Each tile's POI code (see [`poi_code`]), a grid parallel to
    /// `terrain`; empty in saves that predate POIs.
    pub pois: Vec<String>,
}

/// The terrain codes of a grid of tiles, row by row.
pub open spec fn terrain_rows(tiles: Seq<Vec<MapTile>>) -> Seq<Seq<char>> {
    tiles.map_values(|row: Vec<MapTile>| row@.map_values(|t: MapTile| terrain_code_of(t.terrain_type)))
}

/// The POI codes of a grid of tiles, row by row.
pub open spec fn poi_rows(tiles: Seq<Vec<MapTile>>) -> Seq<Seq<char>> {
    tiles.map_values(|row: Vec<MapTile>| row@.map_values(|t: MapTile| poi_code_of(t.poi)))
}

/// The terrain of each tile of a grid.
pub open spec fn terrain_grid(tiles: Seq<Vec<MapTile>>) -> Seq<Seq<TerrainType>> {
    tiles.map_values(|row: Vec<MapTile>| row@.map_values(|t: MapTile| t.terrain_type))
}

/// The point of interest of each tile of a grid.
pub open spec fn poi_grid(tiles: Seq<Vec<MapTile>>) -> Seq<Seq<Option<Poi>>> {
    tiles.map_values(|row: Vec<MapTile>| row@.map_values(|t: MapTile| t.poi))
}

fn terrain_code_str(t: TerrainType) -> (r: &'static str)
    ensures
        r@ == seq![terrain_code_of(t)],
{
    proof {
        reveal_strlit("M");
        reveal_strlit("F");
        reveal_strlit(".");
    }
    match t {
        TerrainType::Meadow => "M",
        TerrainType::Forest => "F",
        TerrainType::Deadland => ".",
    }
}

fn poi_code_str(p: Option<Poi>) -> (r: &'static str)
    ensures
        r@ == seq![poi_code_of(p)],
{
    proof {
        reveal_strlit(".");
        reveal_strlit("c");
        reveal_strlit("r");
        reveal_strlit("v");
    }
    match p {
        None => ".",
        Some(Poi::Cave) => "c",
        Some(Poi::Ruins) => "r",
        Some(Poi::Village) => "v",
    }
}

/// The saved shape of a map: its terrain codes and POI codes, row by row.
pub fn map_state(map: &GameMap) -> (r: MapState)
    ensures
        texts(r.terrain@) == terrain_rows(map.tiles@),
        texts(r.pois@) == poi_rows(map.tiles@),
{
    let mut terrain: Vec<String> = Vec::new();
    let mut pois: Vec<String> = Vec::new();
    let mut y: usize = 0;
    while y < map.tiles.len()
        invariant
            y <= map.tiles@.len(),
            terrain@.len() == y,
            pois@.len() == y,
            forall|j: int| 0 <= j < y ==> (#[trigger] terrain@[j])@
                == map.tiles@[j]@.map_values(|t: MapTile| terrain_code_of(t.terrain_type)),
            forall|j: int| 0 <= j < y ==> (#[trigger] pois@[j])@
                == map.tiles@[j]@.map_values(|t: MapTile| poi_code_of(t.poi)),
        decreases map.tiles.len() - y,
    {
        let row = &map.tiles[y];
        let mut ts = String::new();
        let mut ps = String::new();
        let mut x: usize = 0;
        while x < row.len()
            invariant
                x <= row@.len(),
                ts@ == row@.take(x as int).map_values(|t: MapTile| terrain_code_of(t.terrain_type)),
                ps@ == row@.take(x as int).map_values(|t: MapTile| poi_code_of(t.poi)),
            decreases row.len() - x,
        {
            ts.append(terrain_code_str(row[x].terrain_type));
            ps.append(poi_code_str(row[x].poi));
            assert(row@.take(x + 1).map_values(|t: MapTile| terrain_code_of(t.terrain_type))
                =~= row@.take(x as int).map_values(|t: MapTile| terrain_code_of(t.terrain_type)).push(terrain_code_of(row@[x as int].terrain_type)));
            assert(row@.take(x + 1).map_values(|t: MapTile| poi_code_of(t.poi))
                =~= row@.take(x as int).map_values(|t: MapTile| poi_code_of(t.poi)).push(poi_code_of(row@[x as int].poi)));
            x = x + 1;
        }
        assert(row@.take(row@.len() as int) =~= row@);
        terrain.push(ts);
        pois.push(ps);
        y = y + 1;
    }
    assert(texts(terrain@) =~= terrain_rows(map.tiles@));
    assert(texts(pois@) =~= poi_rows(map.tiles@));
    MapState { terrain, pois }
}

/// What a saved map reads as: its terrain grid, then its POI grid beside
/// it, or the first thing wrong with them.
pub open spec fn parsed_map(state: &MapState) -> Result<(Seq<Seq<TerrainType>>, Seq<Seq<Option<Poi>>>), SaveError> {
    match parsed_terrain(texts(state.terrain@)) {
        Err(e) => Err(e),
        Ok(g) => match parsed_pois(texts(state.pois@), g.len() as int, g[0].len() as int) {
            Err(e) => Err(e),
            Ok(p) => Ok((g, p)),
        },
    }
}

/// `map` is a fresh map over the terrain grid `g` and POI grid `p`: same
/// shape, each tile's terrain and POI from the grids, its finds and game
/// those of its ground, never searched or hunted.
pub open spec fn fresh_map_of(map: &GameMap, g: Seq<Seq<TerrainType>>, p: Seq<Seq<Option<Poi>>>) -> bool {
    &&& map.half == g.len() as int / 2
    &&& map.tiles@.len() == g.len()
    &&& forall|y: int| 0 <= y < g.len() ==> (#[trigger] map.tiles@[y])@.len() == g[y].len()
    &&& forall|x: int, y: int| 0 <= y < g.len() && 0 <= x < g[y].len() ==> {
        let t = #[trigger] map.tile_at(x, y);
        &&& t.terrain_type == g[y][x]
        &&& t.poi == p[y][x]
        &&& t.items@ == tile_finds(t.terrain_type, t.poi)
        &&& t.hunt_items@ == terrain_game(t.terrain_type)
        &&& t.last_search_time.is_none()
        &&& t.last_hunt_time.is_none()
    }
}

/// Rebuilds a map from its saved shape. Any non-empty rectangular grid is
/// accepted; each tile starts fresh.
pub fn restore_map(state: &MapState) -> (r: Result<GameMap, SaveError>)
    requires
        state.terrain@.len() <= i32::MAX,
    ensures
        match r {
            Ok(map) => parsed_map(state) matches Ok((g, p)) && fresh_map_of(&map, g, p),
            Err(e) => parsed_map(state) == Err::<(Seq<Seq<TerrainType>>, Seq<Seq<Option<Poi>>>), SaveError>(e),
        },
{
    let terrain = match parse_terrain(&state.terrain) {
        Ok(g) => g,
        Err(e) => {
            return Err(e);
        },
    };
    let ghost g = grid_view(terrain@);
    let ghost t = texts(state.terrain@);
    assert(g.len() == t.len());
    assert(t.len() > 0 && is_grid(t, t.len() as int, t[0].len() as int));
    assert(forall|y: int| 0 <= y < g.len() ==> (#[trigger] g[y]).len() == t[y].len());
    let width = terrain[0].len();
    let pois = match parse_pois(&state.pois, terrain.len(), width) {
        Ok(p) => p,
        Err(e) => {
            return Err(e);
        },
    };
    let ghost pv = grid_view(pois@);
    assert(is_grid(pv, g.len() as int, width as int)) by {
        if state.pois@.len() == 0 {
        } else {
            assert(is_grid(texts(state.pois@), g.len() as int, width as int));
        }
    }
    proof {
        assert forall|y: int| 0 <= y < g.len() implies (#[trigger] terrain@[y])@.len() == width && pois@[y]@.len() == width by {
            assert(g[y].len() == t[y].len());
            assert(pv[y].len() == width);
        }
    }
    let map = GameMap::from_terrain(terrain, pois);
    proof {
        assert forall|y: int| 0 <= y < g.len() implies (#[trigger] map.tiles@[y])@.len() == g[y].len() by {
            assert(g[y].len() == width && pv[y].len() == width);
        }
    }
    Ok(map)
}

/// A map saved by [`map_state`] reads back, through [`restore_map`], as its
/// own terrain and POIs, whenever its tiles form a non-empty rectangular
/// grid.
pub proof fn lemma_saved_map_reads_back(tiles: Seq<Vec<MapTile>>, state: MapState)
    requires
        tiles.len() > 0,
        tiles[0]@.len() > 0,
        forall|y: int| 0 <= y < tiles.len() ==> (#[trigger] tiles[y])@.len() == tiles[0]@.len(),
        texts(state.terrain@) == terrain_rows(tiles),
        texts(state.pois@) == poi_rows(tiles),
    ensures
        parsed_map(&state) == Ok::<(Seq<Seq<TerrainType>>, Seq<Seq<Option<Poi>>>), SaveError>(
            (terrain_grid(tiles), poi_grid(tiles)),
        ),
{
    let tr = terrain_rows(tiles);
    let pr = poi_rows(tiles);
    let h = tiles.len() as int;
    let w = tiles[0]@.len() as int;
    assert(is_grid(tr, h, w));
    assert(is_terrain_shape(tr));
    assert forall|y: int| 0 <= y < h implies !has_unknown_terrain()(#[trigger] tr[y]) by {
        assert forall|x: int| 0 <= x < tr[y].len() implies !unknown_terrain()(#[trigger] tr[y][x]) by {
            lemma_terrain_code_round_trip(tiles[y]@[x].terrain_type, tr[y][x]);
        }
        lemma_first_where_none(tr[y], unknown_terrain());
    }
    lemma_first_where_none(tr, has_unknown_terrain());
    let g = tr.map_values(|row: Seq<char>| row.map_values(|c: char| terrain_of_code(c).unwrap()));
    assert forall|y: int| 0 <= y < h implies (#[trigger] g[y]) =~= terrain_grid(tiles)[y] by {
        assert forall|x: int| 0 <= x < w implies g[y][x] == terrain_grid(tiles)[y][x] by {
            lemma_terrain_code_round_trip(tiles[y]@[x].terrain_type, tr[y][x]);
        }
    }
    assert(g =~= terrain_grid(tiles));
    assert(parsed_terrain(tr) == Ok::<Seq<Seq<TerrainType>>, SaveError>(terrain_grid(tiles)));
    assert(is_grid(pr, h, w));
    assert(pr.len() > 0);
    assert forall|y: int| 0 <= y < h implies !has_unknown_poi()(#[trigger] pr[y]) by {
        assert forall|x: int| 0 <= x < pr[y].len() implies !unknown_poi()(#[trigger] pr[y][x]) by {
            lemma_poi_code_round_trip(tiles[y]@[x].poi, pr[y][x]);
        }
        lemma_first_where_none(pr[y], unknown_poi());
    }
    lemma_first_where_none(pr, has_unknown_poi());
    let p = pr.map_values(|row: Seq<char>| row.map_values(|c: char| poi_of_code(c).unwrap()));
    assert forall|y: int| 0 <= y < h implies (#[trigger] p[y]) =~= poi_grid(tiles)[y] by {
        assert forall|x: int| 0 <= x < w implies p[y][x] == poi_grid(tiles)[y][x] by {
            lemma_poi_code_round_trip(tiles[y]@[x].poi, pr[y][x]);
        }
    }
    assert(p =~= poi_grid(tiles));
    assert(terrain_grid(tiles)[0].len() == w);
}

/// A saved player: plain copies of its counters, its storage and bag as
/// `(item, count)` lists, its recipes by name, and its quest state.
pub struct PlayerState {
    pub level: u32,
    pub experience: u32,
    pub crafts_completed: u32,
    pub coordinates: (i32, i32),
    /// The storage's entries.
    pub inventory: Vec<(Item, u32)>,
    /// The bag's entries; empty in saves that predate the bag.
    pub bag: Vec<(Item, u32)>,
    /// The names of the known recipes, in discovery order.
    pub recipes: Vec<String>,
    pub open_quest: Option<QuestID>,
    pub quest_progress: u32,
    /// Completed quests, in completion order.
    pub quests_completed: Vec<QuestID>,
}

/// `s` is `p` as saved: the same counters and quest state, its storage and
/// bag entries each listed once, its recipes' names in order.
pub open spec fn player_captured(p: &Player, s: &PlayerState) -> bool {
    &&& s.level == p.level
    &&& s.experience == p.experience
    &&& s.crafts_completed == p.crafts_completed
    &&& s.coordinates == p.coordinates
    &&& lists_entries(s.inventory@, p.inventory@)
    &&& lists_entries(s.bag@, p.bag@)
    &&& texts(s.recipes@) == names_of(p.spec_recipes())
    &&& s.open_quest == p.open_quest
    &&& s.quest_progress == p.quest_progress
    &&& s.quests_completed@ == p.spec_completed()
}

/// `known` after learning the book recipe named `name`: the first such
/// recipe is added unless one of that name is known already; a name the
/// book lacks changes nothing.
pub open spec fn grant_named(known: Seq<RecipeView>, name: Seq<char>) -> Seq<RecipeView> {
    match first_where(recipe_book(), named(name)) {
        Some(r) => if names_of(known).contains(name) { known } else { known.push(r) },
        None => known,
    }
}

/// `known` after learning the book recipes named `names`, in order.
pub open spec fn granted_all(known: Seq<RecipeView>, names: Seq<Seq<char>>) -> Seq<RecipeView>
    decreases names.len(),
{
    if names.len() == 0 {
        known
    } else {
        grant_named(granted_all(known, names.drop_last()), names.last())
    }
}

/// `p` is the player rebuilt from `s`: the same counters and quest state,
/// storage and bag as the saved lists describe, and the book recipes the
/// saved names name, unknown names skipped.
pub open spec fn player_restored(p: &Player, s: &PlayerState) -> bool {
    &&& p.level == s.level
    &&& p.experience == s.experience
    &&& p.crafts_completed == s.crafts_completed
    &&& p.coordinates == s.coordinates
    &&& p.inventory@ == pairs_map(s.inventory@)
    &&& p.bag@ == pairs_map(s.bag@)
    &&& p.spec_recipes() == granted_all(Seq::empty(), texts(s.recipes@))
    &&& p.open_quest == s.open_quest
    &&& p.quest_progress == s.quest_progress
    &&& p.spec_completed() == s.quests_completed@
}

/// The saved shape of a player.
pub fn player_state(p: &Player) -> (r: PlayerState)
    ensures
        player_captured(p, &r),
{
    let known = p.known_recipes();
    let mut recipes: Vec<String> = Vec::new();
    let mut k: usize = 0;
    while k < known.len()
        invariant
            k <= known@.len(),
            known@.map_values(|x: crate::game::Recipe| x@) == p.spec_recipes(),
            texts(recipes@) == names_of(p.spec_recipes()).take(k as int),
        decreases known.len() - k,
    {
        let name = String::from_str(known[k].name());
        assert(known@.map_values(|x: crate::game::Recipe| x@)[k as int] == known@[k as int]@);
        assert(name@ == names_of(p.spec_recipes())[k as int]);
        let ghost before = recipes@;
        recipes.push(name);
        assert(texts(recipes@) =~= texts(before).push(name@));
        assert(texts(recipes@) =~= names_of(p.spec_recipes()).take(k + 1));
        k = k + 1;
    }
    assert(names_of(p.spec_recipes()).take(k as int) =~= names_of(p.spec_recipes()));
    PlayerState {
        level: p.level,
        experience: p.experience,
        crafts_completed: p.crafts_completed,
        coordinates: p.coordinates,
        inventory: p.inventory.entries(),
        bag: p.bag.entries(),
        recipes,
        open_quest: p.open_quest,
        quest_progress: p.quest_progress,
        quests_completed: copy_vec(&p.quests_completed),
    }
}

/// Rebuilds a player from its saved shape. Recipe names the book lacks are
/// skipped.
pub fn restore_player(state: PlayerState) -> (r: Player)
    ensures
        player_restored(&r, &state),
{
    let ghost names = texts(state.recipes@);
    let mut p = Player::default();
    p.level = state.level;
    p.experience = state.experience;
    p.crafts_completed = state.crafts_completed;
    p.coordinates = state.coordinates;
    p.inventory = ItemCounts::from_pairs(&state.inventory);
    p.bag = ItemCounts::from_pairs(&state.bag);
    let mut k: usize = 0;
    while k < state.recipes.len()
        invariant
            k <= state.recipes@.len(),
            names == texts(state.recipes@),
            p.spec_recipes() == granted_all(Seq::empty(), names.take(k as int)),
            p.level == state.level,
            p.experience == state.experience,
            p.crafts_completed == state.crafts_completed,
            p.coordinates == state.coordinates,
            p.inventory@ == pairs_map(state.inventory@),
            p.bag@ == pairs_map(state.bag@),
        decreases state.recipes.len() - k,
    {
        let name = state.recipes[k].as_str();
        let ghost known = p.spec_recipes();
        p.grant_recipe(name);
        proof {
            assert(names.take(k + 1).drop_last() =~= names.take(k as int));
            assert(names.take(k + 1).last() == name@);
            if exists|i: int| 0 <= i < recipe_book().len() && #[trigger] recipe_book()[i].name == name@ {
                if !names_of(known).contains(name@) {
                    let i = choose|i: int| 0 <= i < recipe_book().len() && #[trigger] recipe_book()[i].name == name@
                        && (forall|j: int| 0 <= j < i ==> (#[trigger] recipe_book()[j]).name != name@)
                        && p.spec_recipes() == known.push(recipe_book()[i]);
                    lemma_first_where_at(recipe_book(), named(name@), i);
                }
            } else {
                lemma_first_where_none(recipe_book(), named(name@));
            }
        }
        k = k + 1;
    }
    assert(names.take(k as int) =~= names);
    p.restore_quest_state(state.open_quest, state.quest_progress, state.quests_completed);
    p
}

/// No two recipes of the book share a name.
pub proof fn lemma_book_names_distinct()
    ensures
        forall|a: int, b: int| 0 <= a < b < recipe_book().len()
            ==> (#[trigger] recipe_book()[a]).name != (#[trigger] recipe_book()[b]).name,
{
    let book = recipe_book();
    reveal_strlit("Arrow");
    reveal_strlit("Wooden Bow");
    reveal_strlit("Cord");
    reveal_strlit("Stone Axe");
    reveal_strlit("Coil");
    reveal_strlit("Metal Detector");
    reveal_strlit("Solar Charger");
    reveal_strlit("Umbrella");
    reveal_strlit("Electronic Toy");
    reveal_strlit("Bone Needle");
    reveal_strlit("Satchel");
    assert(book[0].name.len() == 5);
    assert(book[1].name.len() == 10);
    assert(book[2].name.len() == 4);
    assert(book[3].name.len() == 9);
    assert(book[4].name.len() == 4);
    assert(book[5].name.len() == 14);
    assert(book[6].name.len() == 13);
    assert(book[7].name.len() == 8);
    assert(book[8].name.len() == 14);
    assert(book[9].name.len() == 11);
    assert(book[10].name.len() == 7);
    assert(book[2].name[2] != book[4].name[2]);
    assert(book[5].name[0] != book[8].name[0]);
    assert forall|a: int, b: int| 0 <= a < b < book.len() implies (#[trigger] book[a]).name != (#[trigger] book[b]).name by {
        if a == 0 {
            if b == 1 {
            } else if b == 2 {
            } else if b == 3 {
            } else if b == 4 {
            } else if b == 5 {
            } else if b == 6 {
            } else if b == 7 {
            } else if b == 8 {
            } else if b == 9 {
            } else if b == 10 {
            }
        } else if a == 1 {
            if b == 2 {
            } else if b == 3 {
            } else if b == 4 {
            } else if b == 5 {
            } else if b == 6 {
            } else if b == 7 {
            } else if b == 8 {
            } else if b == 9 {
            } else if b == 10 {
            }
        } else if a == 2 {
            if b == 3 {
            } else if b == 4 {
            } else if b == 5 {
            } else if b == 6 {
            } else if b == 7 {
            } else if b == 8 {
            } else if b == 9 {
            } else if b == 10 {
            }
        } else if a == 3 {
            if b == 4 {
            } else if b == 5 {
            } else if b == 6 {
            } else if b == 7 {
            } else if b == 8 {
            } else if b == 9 {
            } else if b == 10 {
            }
        } else if a == 4 {
            if b == 5 {
            } else if b == 6 {
            } else if b == 7 {
            } else if b == 8 {
            } else if b == 9 {
            } else if b == 10 {
            }
        } else if a == 5 {
            if b == 6 {
            } else if b == 7 {
            } else if b == 8 {
            } else if b == 9 {
            } else if b == 10 {
            }
        } else if a == 6 {
            if b == 7 {
            } else if b == 8 {
            } else if b == 9 {
            } else if b == 10 {
            }
        } else if a == 7 {
            if b == 8 {
            } else if b == 9 {
            } else if b == 10 {
            }
        } else if a == 8 {
            if b == 9 {
            } else if b == 10 {
            }
        } else if a == 9 {
            if b == 10 {
            }
        }
    }
}

/// The recipes are book recipes, no two of one name.
pub open spec fn distinct_book_recipes(recipes: Seq<RecipeView>) -> bool {
    &&& forall|i: int| 0 <= i < recipes.len() ==> recipe_book().contains(#[trigger] recipes[i])
    &&& forall|a: int, b: int| 0 <= a < b < recipes.len() ==> (#[trigger] recipes[a]).name != (#[trigger] recipes[b]).name
}

/// Learning, in order, the names of distinct book recipes learns exactly
/// those recipes.
pub proof fn lemma_granted_names(recipes: Seq<RecipeView>)
    requires
        distinct_book_recipes(recipes),
    ensures
        granted_all(Seq::empty(), names_of(recipes)) == recipes,
    decreases recipes.len(),
{
    if recipes.len() > 0 {
        let rest = recipes.drop_last();
        let last = recipes.last();
        assert(names_of(recipes).drop_last() =~= names_of(rest));
        assert(distinct_book_recipes(rest)) by {
            assert forall|i: int| 0 <= i < rest.len() implies recipe_book().contains(#[trigger] rest[i]) by {
                assert(rest[i] == recipes[i]);
            }
            assert forall|a: int, b: int| 0 <= a < b < rest.len() implies (#[trigger] rest[a]).name != (#[trigger] rest[b]).name by {
                assert(rest[a] == recipes[a] && rest[b] == recipes[b]);
            }
        }
        lemma_granted_names(rest);
        assert(names_of(recipes).last() == last.name);
        assert(recipes[recipes.len() - 1] == last);
        assert(recipe_book().contains(last));
        let k = choose|k: int| 0 <= k < recipe_book().len() && recipe_book()[k] == last;
        lemma_book_names_distinct();
        assert forall|j: int| 0 <= j < k implies !named(last.name)(#[trigger] recipe_book()[j]) by {
            assert(recipe_book()[j].name != recipe_book()[k].name);
        }
        lemma_first_where_at(recipe_book(), named(last.name), k);
        assert(!names_of(rest).contains(last.name)) by {
            if names_of(rest).contains(last.name) {
                let a = choose|a: int| 0 <= a < names_of(rest).len() && names_of(rest)[a] == last.name;
                assert(recipes[a].name != recipes[recipes.len() - 1].name);
            }
        }
        assert(rest.push(last) =~= recipes);
    }
}

/// A player saved by [`player_state`] and rebuilt by [`restore_player`]
/// is the player that was saved: counters, storage, bag, recipes and
/// quests, provided its recipes are distinct book recipes, as play keeps
/// them.
pub proof fn lemma_saved_player_reads_back(p: &Player, s: &PlayerState, q: &Player)
    requires
        distinct_book_recipes(p.spec_recipes()),
        player_captured(p, s),
        player_restored(q, s),
    ensures
        q.level == p.level,
        q.experience == p.experience,
        q.crafts_completed == p.crafts_completed,
        q.coordinates == p.coordinates,
        q.inventory@ == p.inventory@,
        q.bag@ == p.bag@,
        q.spec_recipes() == p.spec_recipes(),
        q.open_quest == p.open_quest,
        q.quest_progress == p.quest_progress,
        q.spec_completed() == p.spec_completed(),
{
    lemma_listed_entries_map(s.inventory@, p.inventory@);
    lemma_listed_entries_map(s.bag@, p.bag@);
    lemma_granted_names(p.spec_recipes());
}

/// One saved event: what happened and when, in milliseconds into the
/// session.
pub struct EventState {
    pub kind: EventKind,
    pub elapsed_ms: u64,
}

/// A whole saved game: the game time in milliseconds, the player, the map
/// and the event log.
pub struct SaveState {
    /// The game time when saved; zero in saves that predate it.
    pub elapsed_ms: u64,
    pub player: PlayerState,
    pub map: MapState,
    pub events: Vec<EventState>,
}

/// `saved` records `log` event for event: the same kinds and times.
pub open spec fn events_match(log: Seq<Event>, saved: Seq<EventState>) -> bool {
    &&& saved.len() == log.len()
    &&& forall|i: int| 0 <= i < log.len() ==> {
        &&& (#[trigger] saved[i]).kind@ == log[i].kind@
        &&& saved[i].elapsed_ms == log[i].elapsed_ms
    }
}

/// `s` is `game` as saved: its game time (never before its latest event),
/// its player, its map's codes and its log.
pub open spec fn game_captured(game: &Game, s: &SaveState) -> bool {
    &&& s.elapsed_ms >= game.latest_ms
    &&& player_captured(&game.player, &s.player)
    &&& texts(s.map.terrain@) == terrain_rows(game.map.tiles@)
    &&& texts(s.map.pois@) == poi_rows(game.map.tiles@)
    &&& events_match(game.spec_log(), s.events@)
}

/// `r` is what restoring `s` gives: the game rebuilt from its parts, with
/// its game time the later of the saved time and the latest event's; or
/// the first thing wrong with the saved map.
pub open spec fn game_restored(s: &SaveState, r: Result<Game, SaveError>) -> bool {
    match r {
        Ok(g) => {
            &&& parsed_map(&s.map) matches Ok((tg, pg)) && fresh_map_of(&g.map, tg, pg)
            &&& player_restored(&g.player, &s.player)
            &&& events_match(g.spec_log(), s.events@)
            &&& g.latest_ms == latest_time(g.spec_log(), s.elapsed_ms)
            &&& g.wf()
        },
        Err(e) => parsed_map(&s.map) == Err::<(Seq<Seq<TerrainType>>, Seq<Seq<Option<Poi>>>), SaveError>(e),
    }
}

/// The saved shape of a whole game, stamped with the current game time.
pub fn capture(game: &Game) -> (r: SaveState)
    ensures
        game_captured(game, &r),
{
    let mut events: Vec<EventState> = Vec::new();
    let log = game.events();
    let mut i: usize = 0;
    while i < log.len()
        invariant
            i <= log@.len(),
            log@ == game.spec_log(),
            events@.len() == i,
            forall|k: int| 0 <= k < i ==> {
                &&& (#[trigger] events@[k]).kind@ == log@[k].kind@
                &&& events@[k].elapsed_ms == log@[k].elapsed_ms
            },
        decreases log.len() - i,
    {
        events.push(EventState { kind: log[i].kind().duplicate(), elapsed_ms: log[i].elapsed_millis() });
        i = i + 1;
    }
    SaveState {
        elapsed_ms: game.elapsed_ms(),
        player: player_state(&game.player),
        map: map_state(&game.map),
        events,
    }
}

/// Rebuilds a game from its saved shape: the map first (refused if its
/// grids are malformed), then the player and the log; the game time is the
/// saved one, or the latest event's should that be later.
pub fn restore(state: SaveState) -> (r: Result<Game, SaveError>)
    requires
        state.map.terrain@.len() <= i32::MAX,
    ensures
        game_restored(&state, r),
{
    let map = match restore_map(&state.map) {
        Ok(m) => m,
        Err(e) => {
            return Err(e);
        },
    };
    let mut events: Vec<Event> = Vec::new();
    let mut i: usize = 0;
    while i < state.events.len()
        invariant
            i <= state.events@.len(),
            events@.len() == i,
            forall|k: int| 0 <= k < i ==> {
                &&& (#[trigger] events@[k]).kind@ == state.events@[k].kind@
                &&& events@[k].elapsed_ms == state.events@[k].elapsed_ms
            },
        decreases state.events.len() - i,
    {
        events.push(Event::new(state.events[i].kind.duplicate(), state.events[i].elapsed_ms));
        i = i + 1;
    }
    let elapsed_ms = state.elapsed_ms;
    let player = restore_player(state.player);
    Ok(Game::from_saved(player, map, events, elapsed_ms))
}

/// The kinds and times of a log.
pub open spec fn log_view(log: Seq<Event>) -> Seq<(EventView, u64)> {
    log.map_values(|e: Event| (e.kind@, e.elapsed_ms))
}

/// A game saved by [`capture`] and rebuilt by [`restore`] comes back: the
/// restore succeeds, the player is the one saved, every tile has its terrain
/// and POI, the log has the same events at the same times, and the game
/// time does not go back. This holds of any game whose map is a non-empty
/// rectangular grid centred as maps are, and whose recipes are distinct
/// book recipes, as play keeps them.
pub proof fn lemma_saved_game_reads_back(game: &Game, s: &SaveState, r: Result<Game, SaveError>)
    requires
        game.map.tiles@.len() > 0,
        game.map.tiles@[0]@.len() > 0,
        forall|y: int| 0 <= y < game.map.tiles@.len() ==> (#[trigger] game.map.tiles@[y])@.len() == game.map.tiles@[0]@.len(),
        game.map.half == game.map.tiles@.len() as int / 2,
        distinct_book_recipes(game.player.spec_recipes()),
        game_captured(game, s),
        game_restored(s, r),
    ensures
        r is Ok,
        ({
            let g = r.unwrap();
            &&& g.player.level == game.player.level
            &&& g.player.experience == game.player.experience
            &&& g.player.crafts_completed == game.player.crafts_completed
            &&& g.player.coordinates == game.player.coordinates
            &&& g.player.inventory@ == game.player.inventory@
            &&& g.player.bag@ == game.player.bag@
            &&& g.player.spec_recipes() == game.player.spec_recipes()
            &&& g.player.open_quest == game.player.open_quest
            &&& g.player.quest_progress == game.player.quest_progress
            &&& g.player.spec_completed() == game.player.spec_completed()
            &&& g.map.half == game.map.half
            &&& terrain_grid(g.map.tiles@) == terrain_grid(game.map.tiles@)
            &&& poi_grid(g.map.tiles@) == poi_grid(game.map.tiles@)
            &&& log_view(g.spec_log()) == log_view(game.spec_log())
            &&& g.latest_ms >= game.latest_ms
        }),
{
    lemma_saved_map_reads_back(game.map.tiles@, s.map);
    let tg = terrain_grid(game.map.tiles@);
    let pg = poi_grid(game.map.tiles@);
    let g = r.unwrap();
    lemma_saved_player_reads_back(&game.player, &s.player, &g.player);
    assert(fresh_map_of(&g.map, tg, pg));
    assert(terrain_grid(g.map.tiles@) =~= tg) by {
        assert forall|y: int| 0 <= y < tg.len() implies #[trigger] terrain_grid(g.map.tiles@)[y] =~= tg[y] by {
            assert forall|x: int| 0 <= x < tg[y].len() implies terrain_grid(g.map.tiles@)[y][x] == tg[y][x] by {
                assert(g.map.tile_at(x, y).terrain_type == tg[y][x]);
            }
        }
    }
    assert(poi_grid(g.map.tiles@) =~= pg) by {
        assert forall|y: int| 0 <= y < pg.len() implies #[trigger] poi_grid(g.map.tiles@)[y] =~= pg[y] by {
            assert forall|x: int| 0 <= x < pg[y].len() implies poi_grid(g.map.tiles@)[y][x] == pg[y][x] by {
                assert(g.map.tile_at(x, y).poi == pg[y][x]);
            }
        }
    }
    assert(log_view(g.spec_log()) =~= log_view(game.spec_log())) by {
        assert forall|i: int| 0 <= i < game.spec_log().len() implies #[trigger] log_view(g.spec_log())[i] == log_view(game.spec_log())[i] by {
            assert(s.events@[i].kind@ == game.spec_log()[i].kind@);
        }
    }
    lemma_latest_time_floor(g.spec_log(), s.elapsed_ms);
}

/// The latest time of a log is never before its floor.
pub proof fn lemma_latest_time_floor(log: Seq<Event>, floor: u64)
    ensures
        latest_time(log, floor) >= floor,
    decreases log.len(),
{
    if log.len() > 0 {
        lemma_latest_time_floor(log.drop_last(), floor);
    }
}

/// The name of the save file written at `epoch` (seconds since the Unix
/// epoch): `the-bug-save-<epoch>.json`.
pub fn save_filename(epoch: u64) -> (r: String)
    ensures
        r@ == "the-bug-save-"@ + decimal(epoch as nat) + ".json"@,
{
    let mut s = String::from_str("the-bug-save-");
    push_decimal(&mut s, epoch);
    s.append(".json");
    s
}

} // verus!
