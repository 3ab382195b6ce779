//! The world map: terrain, points of interest, and the tiles the player
//! walks, searches and hunts on.

use vstd::prelude::*;
use vstd::string::*;
use std::time::{Duration, Instant};
use super::item::Item;
use super::clock::{elapsed_since, duration_millis, tile_clock_now, span_millis};
use super::random::roll_below;

verus! {

/// A compass direction to walk in. North is `+y`.
#[derive(Clone, Copy, Debug, PartialEq, Eq, Structural)]
pub enum Direction {
    North,
    South,
    East,
    West,
}

/// The world-coordinate step one move in `dir` takes.
pub open spec fn direction_delta(dir: Direction) -> (int, int) {
    match dir {
        Direction::North => (0, 1),
        Direction::South => (0, -1),
        Direction::East => (1, 0),
        Direction::West => (-1, 0),
    }
}

impl Direction {
    /// The world-coordinate step one move in this direction takes.
    pub fn delta(self) -> (r: (i32, i32))
        ensures
            (r.0 as int, r.1 as int) == direction_delta(self),
    {
        match self {
            Direction::North => (0, 1),
            Direction::South => (0, -1),
            Direction::East => (1, 0),
            Direction::West => (-1, 0),
        }
    }
}

/// The ground a tile is made of.
#[derive(Clone, Copy, Debug, PartialEq, Eq, Structural)]
pub enum TerrainType {
    Meadow,
    Forest,
    Deadland,
}

/// The map glyph of a terrain.
pub open spec fn terrain_symbol(t: TerrainType) -> char {
    match t {
        TerrainType::Meadow => '\u{169E7}',
        TerrainType::Forest => '\u{16830}',
        TerrainType::Deadland => ' ',
    }
}

/// The English name of a terrain.
pub open spec fn terrain_name(t: TerrainType) -> Seq<char> {
    match t {
        TerrainType::Meadow => "Meadow"@,
        TerrainType::Forest => "Forest"@,
        TerrainType::Deadland => "Deadland"@,
    }
}

impl TerrainType {
    /// The single-character glyph used to draw this terrain on the map.
    pub fn symbol(self) -> (r: char)
        ensures
            r == terrain_symbol(self),
    {
        match self {
            TerrainType::Meadow => '\u{169E7}',
            TerrainType::Forest => '\u{16830}',
            TerrainType::Deadland => ' ',
        }
    }

    /// The English name, e.g. `"Forest"`.
    pub fn name(self) -> (r: &'static str)
        ensures
            r@ == terrain_name(self),
    {
        match self {
            TerrainType::Meadow => "Meadow",
            TerrainType::Forest => "Forest",
            TerrainType::Deadland => "Deadland",
        }
    }

    /// The English name as an owned string.
    pub fn to_string(&self) -> (r: String)
        ensures
            r@ == terrain_name(*self),
    {
        String::from_str(self.name())
    }
}

/// A point of interest sitting on a tile, on top of its terrain. At most one
/// per tile.
#[derive(Clone, Copy, Debug, PartialEq, Eq, Structural)]
pub enum Poi {
    Cave,
    Ruins,
    Village,
}

/// The map glyph of a point of interest.
pub open spec fn poi_symbol(p: Poi) -> char {
    match p {
        Poi::Cave => '\u{1FAA8}',
        Poi::Ruins => '\u{1F3D9}',
        Poi::Village => '\u{1F6D6}',
    }
}

impl Poi {
    /// The single-character glyph used to draw this POI on the map.
    pub fn symbol(self) -> (r: char)
        ensures
            r == poi_symbol(self),
    {
        match self {
            Poi::Cave => '\u{1FAA8}',
            Poi::Ruins => '\u{1F3D9}',
            Poi::Village => '\u{1F6D6}',
        }
    }
}

/// Where a searched-up item came from: the tile's terrain, or its POI.
#[derive(Clone, Copy, Debug, PartialEq, Eq, Structural)]
pub enum FoundIn {
    Terrain(TerrainType),
    Poi(Poi),
}


/// Certainty, in the millionths that every find and hunt chance is counted in.
pub const CERTAIN: u32 = 1_000_000;

/// How long, in milliseconds, a searched or hunted tile takes to recover its
/// full odds.
pub const DECAY_WINDOW_MS: u64 = 60_000;

/// What a tile's terrain can turn up when searched: `(item, chance)`, the
/// chance in millionths.
pub open spec fn terrain_finds(t: TerrainType) -> Seq<(Item, u32)> {
    match t {
        TerrainType::Forest => seq![(Item::Branch, 500_000u32)],
        TerrainType::Meadow => seq![(Item::Vine, 300_000u32)],
        TerrainType::Deadland => seq![],
    }
}

/// What a tile's point of interest adds on top of its terrain's finds.
pub open spec fn poi_finds(p: Poi) -> Seq<(Item, u32)> {
    match p {
        Poi::Cave => seq![(Item::Stone, 300_000u32)],
        Poi::Ruins => seq![
            (Item::CopperWire, 200_000u32),
            (Item::PlasticBottle, 200_000u32),
            (Item::Umbrella, 200_000u32),
            (Item::ElectronicToy, 100_000u32),
        ],
        Poi::Village => seq![],
    }
}

/// What a hunt on a terrain can bring back: `(item, chance)`. Deadland has
/// no game.
pub open spec fn terrain_game(t: TerrainType) -> Seq<(Item, u32)> {
    match t {
        TerrainType::Meadow => seq![
            (Item::Meat, 450_000u32),
            (Item::Hide, 350_000u32),
            (Item::Bone, 300_000u32),
            (Item::Fur, 100_000u32),
        ],
        TerrainType::Forest => seq![
            (Item::Meat, 500_000u32),
            (Item::Hide, 250_000u32),
            (Item::Bone, 350_000u32),
            (Item::Fur, 350_000u32),
        ],
        TerrainType::Deadland => seq![],
    }
}

/// Everything a tile can yield on a search: the terrain's finds tagged with
/// the terrain, then the POI's tagged with the POI.
pub open spec fn tile_finds(t: TerrainType, poi: Option<Poi>) -> Seq<(Item, u32, FoundIn)> {
    let from_terrain = terrain_finds(t).map_values(|e: (Item, u32)| (e.0, e.1, FoundIn::Terrain(t)));
    match poi {
        Some(p) => from_terrain + poi_finds(p).map_values(|e: (Item, u32)| (e.0, e.1, FoundIn::Poi(p))),
        None => from_terrain,
    }
}

/// `base` scaled down while the tile was worked less than the decay window
/// ago: `elapsed_ms` is the time since, `None` if it never was.
pub open spec fn decayed(base: u32, elapsed_ms: Option<u64>) -> u32 {
    match elapsed_ms {
        Some(ms) => if ms < DECAY_WINDOW_MS {
            (base as int * ms as int / DECAY_WINDOW_MS as int) as u32
        } else {
            base
        },
        None => base,
    }
}

/// The chance to keep a find: scaled down while the tile was worked recently
/// (`elapsed_ms` since then, `None` if never), so going back to the same spot
/// right away rarely pays off.
pub fn decayed_probability(base: u32, elapsed_ms: Option<u64>) -> (r: u32)
    ensures
        r == decayed(base, elapsed_ms),
        r <= base,
{
    match elapsed_ms {
        Some(ms) => if ms < DECAY_WINDOW_MS {
            proof {
                assert(base as u64 * ms <= 0xffff_ffffu64 * 60000) by (nonlinear_arith)
                    requires base <= 0xffff_ffffu32, ms < 60000u64;
            }
            let scaled = base as u64 * ms / DECAY_WINDOW_MS;
            proof {
                let b = base as int;
                let m = ms as int;
                assert(b * m <= b * 60000) by (nonlinear_arith)
                    requires m < 60000, b >= 0;
                assert((b * m) / 60000 <= b) by (nonlinear_arith)
                    requires b * m <= b * 60000, b >= 0, m >= 0;
            }
            scaled as u32
        } else {
            base
        },
        None => base,
    }
}

/// Chances recover with time: none right after the tile was worked, never
/// less after a longer wait, never above the base chance, and the full base
/// chance once the decay window has passed or if the tile never was worked.
pub proof fn lemma_decay_recovers(base: u32, a: u64, b: u64)
    ensures
        decayed(base, Some(0)) == 0,
        a <= b ==> decayed(base, Some(a)) <= decayed(base, Some(b)),
        decayed(base, Some(a)) <= base,
        a >= DECAY_WINDOW_MS ==> decayed(base, Some(a)) == base,
        decayed(base, None) == base,
{
    let bb = base as int;
    if a < DECAY_WINDOW_MS {
        assert(bb * a <= bb * 60000) by (nonlinear_arith)
            requires a < 60000, bb >= 0;
        assert((bb * a) / 60000 <= bb) by (nonlinear_arith)
            requires bb * a <= bb * 60000, bb >= 0, a >= 0;
    }
    if a <= b {
        if b < DECAY_WINDOW_MS {
            assert(bb * a <= bb * b) by (nonlinear_arith)
                requires a <= b, bb >= 0;
            assert((bb * a) / 60000 <= (bb * b) / 60000) by (nonlinear_arith)
                requires bb * a <= bb * b;
            assert(bb * b <= bb * 60000) by (nonlinear_arith)
                requires b < 60000, bb >= 0;
            assert((bb * b) / 60000 <= bb) by (nonlinear_arith)
                requires bb * b <= bb * 60000, bb >= 0, b >= 0;
            assert(decayed(base, Some(b)) == (bb * b) / 60000);
            assert(decayed(base, Some(a)) == (bb * a) / 60000);
        }
    }
}

/// A tile left alone for the decay window, or never worked, is rolled at
/// its base chances: the search keeps exactly the finds whose roll falls
/// under their listed chance, and the hunt likewise for its game.
pub proof fn lemma_rested_tile_rolls_at_base(tile: MapTile, elapsed: Option<u64>, rolls: Seq<u64>)
    requires
        match elapsed {
            Some(ms) => ms >= DECAY_WINDOW_MS,
            None => true,
        },
    ensures
        tile.finds_for(elapsed, rolls) == kept_by_rolls(tile.find_entries(), tile.find_chances(), rolls),
        tile.game_for(elapsed, rolls) == kept_by_rolls(tile.game_entries(), tile.game_chances(), rolls),
{
    assert(tile.find_chances().map_values(|c: u32| decayed(c, elapsed)) =~= tile.find_chances());
    assert(tile.game_chances().map_values(|c: u32| decayed(c, elapsed)) =~= tile.game_chances());
}

/// The entries of `entries` whose roll came in under their chance: entry `i`
/// is kept when `rolls[i] < chances[i]`.
pub open spec fn kept_by_rolls<T>(entries: Seq<T>, chances: Seq<u32>, rolls: Seq<u64>) -> Seq<T>
    decreases entries.len(),
{
    if entries.len() == 0 {
        seq![]
    } else {
        let n = entries.len() - 1;
        let rest = kept_by_rolls(entries.drop_last(), chances, rolls);
        if rolls[n] < chances[n] { rest.push(entries[n]) } else { rest }
    }
}

/// Keeps entry `i` of `entries` when `rolls[i]` falls below `chances[i]`.
pub fn keep_by_rolls<T: Copy>(entries: &Vec<T>, chances: &Vec<u32>, rolls: &Vec<u64>) -> (r: Vec<T>)
    requires
        chances@.len() == entries@.len(),
        rolls@.len() == entries@.len(),
    ensures
        r@ == kept_by_rolls(entries@, chances@, rolls@),
{
    let mut r: Vec<T> = Vec::new();
    let mut i: usize = 0;
    while i < entries.len()
        invariant
            i <= entries@.len(),
            chances@.len() == entries@.len(),
            rolls@.len() == entries@.len(),
            r@ == kept_by_rolls(entries@.subrange(0, i as int), chances@, rolls@),
        decreases entries.len() - i,
    {
        proof {
            assert(entries@.subrange(0, i as int + 1).drop_last() =~= entries@.subrange(0, i as int));
        }
        if rolls[i] < chances[i] as u64 {
            r.push(entries[i]);
        }
        i = i + 1;
    }
    assert(entries@.subrange(0, entries@.len() as int) =~= entries@);
    r
}

/// One tile of the map.
#[derive(Debug)]
pub struct MapTile {
    pub terrain_type: TerrainType,
    pub poi: Option<Poi>,
    /// What a search here can turn up: `(item, chance in millionths, source)`.
    pub items: Vec<(Item, u32, FoundIn)>,
    /// What a hunt here can turn up: `(item, chance in millionths)`. Empty on
    /// terrain with no fauna.
    pub hunt_items: Vec<(Item, u32)>,
    pub last_search_time: Option<Instant>,
    pub last_hunt_time: Option<Instant>,
}

/// The map glyph of a tile: its POI's if it has one, otherwise its terrain's.
pub open spec fn tile_glyph(terrain: TerrainType, poi: Option<Poi>) -> char {
    match poi {
        Some(p) => poi_symbol(p),
        None => terrain_symbol(terrain),
    }
}

fn finds_of_terrain(t: TerrainType) -> (r: Vec<(Item, u32)>)
    ensures
        r@ == terrain_finds(t),
{
    let r = match t {
        TerrainType::Forest => vec![(Item::Branch, 500_000u32)],
        TerrainType::Meadow => vec![(Item::Vine, 300_000u32)],
        TerrainType::Deadland => vec![],
    };
    assert(r@ =~= terrain_finds(t));
    r
}

fn finds_of_poi(p: Poi) -> (r: Vec<(Item, u32)>)
    ensures
        r@ == poi_finds(p),
{
    let r = match p {
        Poi::Cave => vec![(Item::Stone, 300_000u32)],
        Poi::Ruins => vec![
            (Item::CopperWire, 200_000u32),
            (Item::PlasticBottle, 200_000u32),
            (Item::Umbrella, 200_000u32),
            (Item::ElectronicToy, 100_000u32),
        ],
        Poi::Village => vec![],
    };
    assert(r@ =~= poi_finds(p));
    r
}

/// What a hunt on `terrain` can bring back.
pub fn tile_hunt_items(terrain: TerrainType) -> (r: Vec<(Item, u32)>)
    ensures
        r@ == terrain_game(terrain),
{
    let r = match terrain {
        TerrainType::Meadow => vec![
            (Item::Meat, 450_000u32),
            (Item::Hide, 350_000u32),
            (Item::Bone, 300_000u32),
            (Item::Fur, 100_000u32),
        ],
        TerrainType::Forest => vec![
            (Item::Meat, 500_000u32),
            (Item::Hide, 250_000u32),
            (Item::Bone, 350_000u32),
            (Item::Fur, 350_000u32),
        ],
        TerrainType::Deadland => vec![],
    };
    assert(r@ =~= terrain_game(terrain));
    r
}

/// Everything a tile can yield on a search: its terrain's items, then its
/// POI's, each tagged with where it came from.
pub fn tile_items(terrain: TerrainType, poi: Option<Poi>) -> (r: Vec<(Item, u32, FoundIn)>)
    ensures
        r@ == tile_finds(terrain, poi),
{
    let base = finds_of_terrain(terrain);
    let mut r: Vec<(Item, u32, FoundIn)> = Vec::new();
    let mut i: usize = 0;
    while i < base.len()
        invariant
            i <= base@.len(),
            base@ == terrain_finds(terrain),
            r@ == base@.subrange(0, i as int).map_values(|e: (Item, u32)| (e.0, e.1, FoundIn::Terrain(terrain))),
        decreases base.len() - i,
    {
        let (item, p) = base[i];
        r.push((item, p, FoundIn::Terrain(terrain)));
        proof {
            assert(base@.subrange(0, i as int + 1) =~= base@.subrange(0, i as int).push(base@[i as int]));
        }
        i = i + 1;
    }
    assert(base@.subrange(0, base@.len() as int) =~= base@);
    if let Some(p) = poi {
        let extra = finds_of_poi(p);
        let ghost head = r@;
        let mut j: usize = 0;
        while j < extra.len()
            invariant
                j <= extra@.len(),
                extra@ == poi_finds(p),
                r@ == head + extra@.subrange(0, j as int).map_values(|e: (Item, u32)| (e.0, e.1, FoundIn::Poi(p))),
            decreases extra.len() - j,
        {
            let (item, q) = extra[j];
            r.push((item, q, FoundIn::Poi(p)));
            proof {
                assert(extra@.subrange(0, j as int + 1) =~= extra@.subrange(0, j as int).push(extra@[j as int]));
                assert(r@ =~= head + extra@.subrange(0, j as int + 1).map_values(|e: (Item, u32)| (e.0, e.1, FoundIn::Poi(p))));
            }
            j = j + 1;
        }
        assert(extra@.subrange(0, extra@.len() as int) =~= extra@);
    }
    r
}

/// `elapsed` is the time since `t` in whole milliseconds, as the clock
/// measured it: none if there was no `t`, else the milliseconds of a span
/// that `Instant::elapsed` gave for `t`.
pub closed spec fn measured_since(t: Option<Instant>, elapsed: Option<u64>) -> bool {
    match t {
        None => elapsed.is_none(),
        Some(at) => exists|d: Duration| #[trigger] call_ensures(elapsed_since, (&at,), d)
            && elapsed == Some(span_millis(d) as u64),
    }
}

/// The time since `t`, in milliseconds, if there was a `t`.
fn millis_since(t: &Option<Instant>) -> (r: Option<u64>)
    ensures
        measured_since(*t, r),
        t.is_none() ==> r.is_none(),
        t.is_some() ==> r.is_some(),
{
    match t {
        Some(at) => {
            let read = elapsed_since;
            let d = read(at);
            Some(duration_millis(&d))
        },
        None => None,
    }
}

impl MapTile {
    /// The chances of the tile's search finds, in order.
    pub open spec fn find_chances(&self) -> Seq<u32> {
        self.items@.map_values(|e: (Item, u32, FoundIn)| e.1)
    }

    /// The tile's search finds without their chances, in order.
    pub open spec fn find_entries(&self) -> Seq<(Item, FoundIn)> {
        self.items@.map_values(|e: (Item, u32, FoundIn)| (e.0, e.2))
    }

    /// The chances of the tile's game, in order.
    pub open spec fn game_chances(&self) -> Seq<u32> {
        self.hunt_items@.map_values(|e: (Item, u32)| e.1)
    }

    /// The items of the tile's game, in order.
    pub open spec fn game_entries(&self) -> Seq<Item> {
        self.hunt_items@.map_values(|e: (Item, u32)| e.0)
    }

    /// What a search keeps for `rolls`, with the chances decayed by
    /// `elapsed` milliseconds since the last search (`None`: never searched).
    pub open spec fn finds_for(&self, elapsed: Option<u64>, rolls: Seq<u64>) -> Seq<(Item, FoundIn)> {
        kept_by_rolls(self.find_entries(), self.find_chances().map_values(|c: u32| decayed(c, elapsed)), rolls)
    }

    /// What a hunt keeps for `rolls`, with the chances decayed by `elapsed`
    /// milliseconds since the last hunt (`None`: never hunted).
    pub open spec fn game_for(&self, elapsed: Option<u64>, rolls: Seq<u64>) -> Seq<Item> {
        kept_by_rolls(self.game_entries(), self.game_chances().map_values(|c: u32| decayed(c, elapsed)), rolls)
    }

    /// A tile with terrain but no POI.
    pub fn with_terrain(terrain_type: TerrainType) -> (r: MapTile)
        ensures
            r.terrain_type == terrain_type,
            r.poi == None::<Poi>,
            r.items@ == tile_finds(terrain_type, None),
            r.hunt_items@ == terrain_game(terrain_type),
            r.last_search_time.is_none(),
            r.last_hunt_time.is_none(),
    {
        Self::with_terrain_and_poi(terrain_type, None)
    }

    /// A fresh tile: its finds and game follow from the terrain and POI, and
    /// it has never been searched or hunted.
    pub fn with_terrain_and_poi(terrain_type: TerrainType, poi: Option<Poi>) -> (r: MapTile)
        ensures
            r.terrain_type == terrain_type,
            r.poi == poi,
            r.items@ == tile_finds(terrain_type, poi),
            r.hunt_items@ == terrain_game(terrain_type),
            r.last_search_time.is_none(),
            r.last_hunt_time.is_none(),
    {
        MapTile {
            terrain_type,
            poi,
            items: tile_items(terrain_type, poi),
            hunt_items: tile_hunt_items(terrain_type),
            last_search_time: None,
            last_hunt_time: None,
        }
    }

    /// The tile's map glyph: its POI's if it has one, otherwise its terrain's.
    pub fn glyph(&self) -> (r: char)
        ensures
            r == tile_glyph(self.terrain_type, self.poi),
    {
        match self.poi {
            Some(p) => p.symbol(),
            None => self.terrain_type.symbol(),
        }
    }

    /// The search finds whose rolls came in under their chance, decayed by
    /// `elapsed_ms` (the time since the last search, `None` if never):
    /// entry `i` is found when `rolls[i]` is below its decayed chance.
    pub fn found_with_rolls(&self, elapsed_ms: Option<u64>, rolls: &Vec<u64>) -> (r: Vec<(Item, FoundIn)>)
        requires
            rolls@.len() == self.items@.len(),
        ensures
            r@ == self.finds_for(elapsed_ms, rolls@),
    {
        let mut entries: Vec<(Item, FoundIn)> = Vec::new();
        let mut chances: Vec<u32> = Vec::new();
        let mut i: usize = 0;
        while i < self.items.len()
            invariant
                i <= self.items@.len(),
                entries@ == self.find_entries().subrange(0, i as int),
                chances@ == self.find_chances().map_values(|c: u32| decayed(c, elapsed_ms)).subrange(0, i as int),
            decreases self.items.len() - i,
        {
            let (item, p, source) = self.items[i];
            entries.push((item, source));
            chances.push(decayed_probability(p, elapsed_ms));
            proof {
                assert(entries@ =~= self.find_entries().subrange(0, i as int + 1));
                assert(chances@ =~= self.find_chances().map_values(|c: u32| decayed(c, elapsed_ms)).subrange(0, i as int + 1));
            }
            i = i + 1;
        }
        assert(entries@ =~= self.find_entries());
        assert(chances@ =~= self.find_chances().map_values(|c: u32| decayed(c, elapsed_ms)));
        keep_by_rolls(&entries, &chances, rolls)
    }

    /// The game whose rolls came in under its chance, decayed by
    /// `elapsed_ms` since the last hunt: entry `i` is caught when `rolls[i]`
    /// is below its decayed chance.
    pub fn hunted_with_rolls(&self, elapsed_ms: Option<u64>, rolls: &Vec<u64>) -> (r: Vec<Item>)
        requires
            rolls@.len() == self.hunt_items@.len(),
        ensures
            r@ == self.game_for(elapsed_ms, rolls@),
    {
        let mut entries: Vec<Item> = Vec::new();
        let mut chances: Vec<u32> = Vec::new();
        let mut i: usize = 0;
        while i < self.hunt_items.len()
            invariant
                i <= self.hunt_items@.len(),
                entries@ == self.game_entries().subrange(0, i as int),
                chances@ == self.game_chances().map_values(|c: u32| decayed(c, elapsed_ms)).subrange(0, i as int),
            decreases self.hunt_items.len() - i,
        {
            let (item, p) = self.hunt_items[i];
            entries.push(item);
            chances.push(decayed_probability(p, elapsed_ms));
            proof {
                assert(entries@ =~= self.game_entries().subrange(0, i as int + 1));
                assert(chances@ =~= self.game_chances().map_values(|c: u32| decayed(c, elapsed_ms)).subrange(0, i as int + 1));
            }
            i = i + 1;
        }
        assert(entries@ =~= self.game_entries());
        assert(chances@ =~= self.game_chances().map_values(|c: u32| decayed(c, elapsed_ms)));
        keep_by_rolls(&entries, &chances, rolls)
    }

    /// Rolls each of this tile's finds against its chance, decayed by how
    /// recently the tile was searched. Whatever the rolls, the result is
    /// what [`found_with_rolls`](Self::found_with_rolls) keeps for some
    /// rolls below [`CERTAIN`] and some time since the last search (none if
    /// the tile never was).
    pub fn roll_found_items(&self) -> (r: Vec<(Item, FoundIn)>)
        ensures
            exists|rolls: Seq<u64>, elapsed: Option<u64>|
                rolls.len() == self.items@.len()
                && (forall|i: int| 0 <= i < rolls.len() ==> #[trigger] rolls[i] < CERTAIN)
                && measured_since(self.last_search_time, elapsed)
                && (elapsed.is_none() <==> self.last_search_time.is_none())
                && r@ == #[trigger] self.finds_for(elapsed, rolls),
    {
        let elapsed = millis_since(&self.last_search_time);
        let rolls = draw_rolls(self.items.len());
        self.found_with_rolls(elapsed, &rolls)
    }

    /// Rolls each of this tile's game against its chance, decayed by how
    /// recently the tile was hunted. Mirrors
    /// [`roll_found_items`](Self::roll_found_items).
    pub fn roll_hunted_items(&self) -> (r: Vec<Item>)
        ensures
            exists|rolls: Seq<u64>, elapsed: Option<u64>|
                rolls.len() == self.hunt_items@.len()
                && (forall|i: int| 0 <= i < rolls.len() ==> #[trigger] rolls[i] < CERTAIN)
                && measured_since(self.last_hunt_time, elapsed)
                && (elapsed.is_none() <==> self.last_hunt_time.is_none())
                && r@ == #[trigger] self.game_for(elapsed, rolls),
    {
        let elapsed = millis_since(&self.last_hunt_time);
        let rolls = draw_rolls(self.hunt_items.len());
        self.hunted_with_rolls(elapsed, &rolls)
    }
}

/// `n` independent rolls, each below [`CERTAIN`].
fn draw_rolls(n: usize) -> (r: Vec<u64>)
    ensures
        r@.len() == n,
        forall|i: int| 0 <= i < r@.len() ==> #[trigger] r@[i] < CERTAIN,
{
    let mut r: Vec<u64> = Vec::new();
    let mut i: usize = 0;
    while i < n
        invariant
            i <= n,
            r@.len() == i,
            forall|k: int| 0 <= k < r@.len() ==> #[trigger] r@[k] < CERTAIN,
        decreases n - i,
    {
        r.push(roll_below(CERTAIN as u64));
        i = i + 1;
    }
    r
}


/// One block's edge length. The fixed map is a 3×3 grid of these, revealed
/// by level.
pub const BLOCK_SIZE: usize = 17;

/// The whole map's fixed edge length: 3 blocks wide, 3 tall.
pub const MAP_SIZE: usize = 51;

/// The world map: a grid of tiles, row `y` then column `x`, with world
/// coordinate `(0, 0)` at tile `(half, half)`.
#[derive(Debug)]
pub struct GameMap {
    pub tiles: Vec<Vec<MapTile>>,
    pub half: i32,
}

/// The tile indices `(x, y)` of world position `pos` on a map whose centre
/// is at `half`.
pub open spec fn spec_world_to_tile(half: i32, pos: (i32, i32)) -> (int, int) {
    (pos.0 + half, pos.1 + half)
}

/// The world position of the tile at indices `(x, y)`.
pub open spec fn spec_tile_to_world(half: i32, x: int, y: int) -> (int, int) {
    (x - half, y - half)
}

/// World-to-tile and back lands where it started, and tile-to-world and
/// back too.
pub proof fn lemma_world_tile_round_trip(half: i32, pos: (i32, i32), x: int, y: int)
    ensures
        ({
            let t = spec_world_to_tile(half, pos);
            spec_tile_to_world(half, t.0, t.1) == (pos.0 as int, pos.1 as int)
        }),
        ({
            let w = spec_tile_to_world(half, x, y);
            w.0 + half == x && w.1 + half == y
        }),
{
}

impl GameMap {
    /// The indices of the tile at world position `pos`, if the map has one
    /// there.
    pub open spec fn tile_index(&self, pos: (i32, i32)) -> Option<(int, int)> {
        let (x, y) = spec_world_to_tile(self.half, pos);
        if 0 <= y < self.tiles@.len() && 0 <= x < self.tiles@[y]@.len() {
            Some((x, y))
        } else {
            None
        }
    }

    /// The tile at indices `(x, y)`.
    pub open spec fn tile_at(&self, x: int, y: int) -> MapTile {
        self.tiles@[y]@[x]
    }

    /// Whether the map is the full-grown `MAP_SIZE`×`MAP_SIZE` grid.
    pub open spec fn is_full_grid(&self) -> bool {
        &&& self.tiles@.len() == MAP_SIZE
        &&& forall|y: int| 0 <= y < MAP_SIZE ==> (#[trigger] self.tiles@[y])@.len() == MAP_SIZE
    }

    /// Same grid, same terrain, POIs, finds and game everywhere; only the
    /// search and hunt clocks may differ.
    pub open spec fn same_ground(&self, other: &GameMap) -> bool {
        &&& self.half == other.half
        &&& self.tiles@.len() == other.tiles@.len()
        &&& forall|y: int| 0 <= y < self.tiles@.len() ==> (#[trigger] self.tiles@[y])@.len() == other.tiles@[y]@.len()
        &&& forall|x: int, y: int| 0 <= y < self.tiles@.len() && 0 <= x < self.tiles@[y]@.len() ==> {
            let a = #[trigger] self.tile_at(x, y);
            let b = other.tile_at(x, y);
            &&& a.terrain_type == b.terrain_type
            &&& a.poi == b.poi
            &&& a.items@ == b.items@
            &&& a.hunt_items@ == b.hunt_items@
        }
    }

    /// The tile indices of world position `pos`: `(pos.0 + half, pos.1 + half)`.
    pub fn world_to_tile(&self, pos: (i32, i32)) -> (r: (usize, usize))
        requires
            pos.0 + self.half >= 0,
            pos.1 + self.half >= 0,
        ensures
            (r.0 as int, r.1 as int) == spec_world_to_tile(self.half, pos),
    {
        let x = pos.0 as i64 + self.half as i64;
        let y = pos.1 as i64 + self.half as i64;
        (x as usize, y as usize)
    }

    /// Inverse of [`world_to_tile`](Self::world_to_tile): the world
    /// coordinates of the tile at indices `(x, y)`.
    pub fn tile_to_world(&self, x: usize, y: usize) -> (r: (i32, i32))
        requires
            x - self.half <= i32::MAX,
            y - self.half <= i32::MAX,
        ensures
            (r.0 as int, r.1 as int) == spec_tile_to_world(self.half, x as int, y as int),
    {
        ((x as i64 - self.half as i64) as i32, (y as i64 - self.half as i64) as i32)
    }

    fn index_of(&self, pos: (i32, i32)) -> (r: Option<(usize, usize)>)
        ensures
            match r {
                Some((x, y)) => self.tile_index(pos) == Some((x as int, y as int)),
                None => self.tile_index(pos).is_none(),
            },
    {
        let x = pos.0 as i64 + self.half as i64;
        let y = pos.1 as i64 + self.half as i64;
        if y < 0 || x < 0 {
            return None;
        }
        if y as u64 >= self.tiles.len() as u64 {
            return None;
        }
        let yu = y as usize;
        if x as u64 >= self.tiles[yu].len() as u64 {
            return None;
        }
        Some((x as usize, yu))
    }

    /// The tile at world position `pos`, if it is on the map.
    pub fn get_tile(&self, pos: (i32, i32)) -> (r: Option<&MapTile>)
        ensures
            match self.tile_index(pos) {
                Some((x, y)) => r.is_some() && *r.unwrap() == self.tile_at(x, y),
                None => r.is_none(),
            },
    {
        match self.index_of(pos) {
            Some((x, y)) => Some(&self.tiles[y][x]),
            None => None,
        }
    }

    /// Whether `pos` is within the map's boundary: exactly where
    /// [`get_tile`](Self::get_tile) finds a tile.
    pub fn contains(&self, pos: (i32, i32)) -> (r: bool)
        ensures
            r == self.tile_index(pos).is_some(),
    {
        self.index_of(pos).is_some()
    }

    /// Builds a map from a terrain grid and its parallel POI grid (zipped:
    /// rows and columns beyond the shorter of the two are left out). Every
    /// tile starts fresh.
    pub fn from_terrain(terrain: Vec<Vec<TerrainType>>, pois: Vec<Vec<Option<Poi>>>) -> (r: GameMap)
        requires
            terrain@.len() <= i32::MAX,
        ensures
            r.half == terrain@.len() as int / 2,
            r.tiles@.len() == min_len(terrain@.len(), pois@.len()),
            forall|y: int| 0 <= y < r.tiles@.len() ==> (#[trigger] r.tiles@[y])@.len()
                == min_len(terrain@[y]@.len(), pois@[y]@.len()),
            forall|x: int, y: int| 0 <= y < r.tiles@.len() && 0 <= x < r.tiles@[y]@.len() ==> {
                let t = #[trigger] r.tile_at(x, y);
                &&& t.terrain_type == terrain@[y]@[x]
                &&& t.poi == pois@[y]@[x]
                &&& t.items@ == tile_finds(t.terrain_type, t.poi)
                &&& t.hunt_items@ == terrain_game(t.terrain_type)
                &&& t.last_search_time.is_none()
                &&& t.last_hunt_time.is_none()
            },
    {
        let half = (terrain.len() / 2) as i32;
        let rows = if terrain.len() < pois.len() { terrain.len() } else { pois.len() };
        let mut tiles: Vec<Vec<MapTile>> = Vec::new();
        let mut y: usize = 0;
        while y < rows
            invariant
                rows == min_len(terrain@.len(), pois@.len()),
                y <= rows,
                tiles@.len() == y,
                forall|j: int| 0 <= j < y ==> (#[trigger] tiles@[j])@.len()
                    == min_len(terrain@[j]@.len(), pois@[j]@.len()),
                forall|x: int, j: int| 0 <= j < y && 0 <= x < tiles@[j]@.len() ==> {
                    let t = #[trigger] tiles@[j]@[x];
                    &&& t.terrain_type == terrain@[j]@[x]
                    &&& t.poi == pois@[j]@[x]
                    &&& t.items@ == tile_finds(t.terrain_type, t.poi)
                    &&& t.hunt_items@ == terrain_game(t.terrain_type)
                    &&& t.last_search_time.is_none()
                    &&& t.last_hunt_time.is_none()
                },
            decreases rows - y,
        {
            let trow = &terrain[y];
            let prow = &pois[y];
            let cols = if trow.len() < prow.len() { trow.len() } else { prow.len() };
            let mut row: Vec<MapTile> = Vec::new();
            let mut x: usize = 0;
            while x < cols
                invariant
                    cols == min_len(trow@.len(), prow@.len()),
                    x <= cols,
                    row@.len() == x,
                    forall|i: int| 0 <= i < x ==> {
                        let t = #[trigger] row@[i];
                        &&& t.terrain_type == trow@[i]
                        &&& t.poi == prow@[i]
                        &&& t.items@ == tile_finds(t.terrain_type, t.poi)
                        &&& t.hunt_items@ == terrain_game(t.terrain_type)
                        &&& t.last_search_time.is_none()
                        &&& t.last_hunt_time.is_none()
                    },
                decreases cols - x,
            {
                row.push(MapTile::with_terrain_and_poi(trow[x], prow[x]));
                x = x + 1;
            }
            tiles.push(row);
            y = y + 1;
        }
        GameMap { tiles, half }
    }

    /// Stamps the tile at `pos` as searched now. Does nothing off the map.
    pub fn update_tile_last_search_time(&mut self, pos: (i32, i32))
        ensures
            final(self).same_ground(old(self)),
            forall|x: int, y: int| old(self).tile_index(pos) != Some((x, y))
                && 0 <= y < old(self).tiles@.len() && 0 <= x < old(self).tiles@[y]@.len()
                ==> #[trigger] final(self).tile_at(x, y) == old(self).tile_at(x, y),
            match old(self).tile_index(pos) {
                Some((x, y)) => final(self).tile_at(x, y).last_search_time.is_some()
                    && final(self).tile_at(x, y).last_hunt_time == old(self).tile_at(x, y).last_hunt_time,
                None => true,
            },
    {
        if let Some((x, y)) = self.index_of(pos) {
            let now = tile_clock_now();
            self.tiles[y][x].last_search_time = Some(now);
        }
    }
}

impl GameMap {
    /// Stamps the tile at `pos` as hunted now. Does nothing off the map.
    pub fn update_tile_last_hunt_time(&mut self, pos: (i32, i32))
        ensures
            final(self).same_ground(old(self)),
            forall|x: int, y: int| old(self).tile_index(pos) != Some((x, y))
                && 0 <= y < old(self).tiles@.len() && 0 <= x < old(self).tiles@[y]@.len()
                ==> #[trigger] final(self).tile_at(x, y) == old(self).tile_at(x, y),
            match old(self).tile_index(pos) {
                Some((x, y)) => final(self).tile_at(x, y).last_hunt_time.is_some()
                    && final(self).tile_at(x, y).last_search_time == old(self).tile_at(x, y).last_search_time,
                None => true,
            },
    {
        if let Some((x, y)) = self.index_of(pos) {
            let now = tile_clock_now();
            self.tiles[y][x].last_hunt_time = Some(now);
        }
    }

    /// Makes every find of `item` on the tile at `pos` certain, if the tile
    /// has such a find: a guaranteed find on the next search there (decay
    /// aside). Nothing else changes.
    pub fn guarantee_find(&mut self, pos: (i32, i32), item: Item)
        ensures
            final(self).half == old(self).half,
            final(self).tiles@.len() == old(self).tiles@.len(),
            forall|y: int| 0 <= y < old(self).tiles@.len() ==> (#[trigger] final(self).tiles@[y])@.len() == old(self).tiles@[y]@.len(),
            forall|x: int, y: int| old(self).tile_index(pos) != Some((x, y))
                && 0 <= y < old(self).tiles@.len() && 0 <= x < old(self).tiles@[y]@.len()
                ==> #[trigger] final(self).tile_at(x, y) == old(self).tile_at(x, y),
            match old(self).tile_index(pos) {
                Some((x, y)) => {
                    let a = old(self).tile_at(x, y);
                    let b = final(self).tile_at(x, y);
                    &&& b.terrain_type == a.terrain_type
                    &&& b.poi == a.poi
                    &&& b.hunt_items@ == a.hunt_items@
                    &&& b.last_search_time == a.last_search_time
                    &&& b.last_hunt_time == a.last_hunt_time
                    &&& b.items@ == a.items@.map_values(|e: (Item, u32, FoundIn)|
                        if e.0 == item { (e.0, CERTAIN, e.2) } else { e })
                },
                None => true,
            },
    {
        if let Some((x, y)) = self.index_of(pos) {
            let ghost before = self.tiles@[y as int]@[x as int].items@;
            let n = self.tiles[y][x].items.len();
            let mut i: usize = 0;
            while i < n
                invariant
                    0 <= y < self.tiles@.len(),
                    0 <= x < self.tiles@[y as int]@.len(),
                    n == before.len(),
                    i <= n,
                    self.half == old(self).half,
                    self.tiles@.len() == old(self).tiles@.len(),
                    forall|j: int| 0 <= j < old(self).tiles@.len() ==> (#[trigger] self.tiles@[j])@.len() == old(self).tiles@[j]@.len(),
                    forall|a: int, b: int| !(a == x && b == y)
                        && 0 <= b < old(self).tiles@.len() && 0 <= a < old(self).tiles@[b]@.len()
                        ==> #[trigger] self.tile_at(a, b) == old(self).tile_at(a, b),
                    old(self).tile_index(pos) == Some((x as int, y as int)),
                    before == old(self).tile_at(x as int, y as int).items@,
                    ({
                        let a = old(self).tile_at(x as int, y as int);
                        let b = self.tile_at(x as int, y as int);
                        &&& b.terrain_type == a.terrain_type
                        &&& b.poi == a.poi
                        &&& b.hunt_items@ == a.hunt_items@
                        &&& b.last_search_time == a.last_search_time
                        &&& b.last_hunt_time == a.last_hunt_time
                        &&& b.items@.len() == n
                        &&& forall|k: int| 0 <= k < n ==> #[trigger] b.items@[k] == if k < i && before[k].0 == item {
                            (before[k].0, CERTAIN, before[k].2)
                        } else {
                            before[k]
                        }
                    }),
                decreases n - i,
            {
                let (it, _, source) = self.tiles[y][x].items[i];
                if it == item {
                    let ghost pre = self.tiles@;
                    let ghost pre_map = *self;
                    assert(forall|a: int, b: int| !(a == x && b == y)
                        && 0 <= b < old(self).tiles@.len() && 0 <= a < old(self).tiles@[b]@.len()
                        ==> #[trigger] pre_map.tile_at(a, b) == old(self).tile_at(a, b));
                    self.tiles[y][x].items.set(i, (it, CERTAIN, source));
                    assert(self.tiles@.len() == pre.len());
                    assert(forall|j: int| 0 <= j < pre.len() && j != y ==> self.tiles@[j] == pre[j]);
                    assert(self.tiles@[y as int]@.len() == pre[y as int]@.len());
                    assert(forall|a: int| 0 <= a < pre[y as int]@.len() && a != x ==> self.tiles@[y as int]@[a] == pre[y as int]@[a]);
                    assert forall|a: int, b: int| !(a == x && b == y)
                        && 0 <= b < old(self).tiles@.len() && 0 <= a < old(self).tiles@[b]@.len()
                        implies #[trigger] self.tile_at(a, b) == old(self).tile_at(a, b) by {
                        assert(pre_map.tile_at(a, b) == old(self).tile_at(a, b));
                        if b == y {
                            assert(self.tiles@[b]@[a] == pre[b]@[a]);
                        } else {
                            assert(self.tiles@[b] == pre[b]);
                        }
                    }
                }
                i = i + 1;
            }
            assert(self.tile_at(x as int, y as int).items@ =~= before.map_values(|e: (Item, u32, FoundIn)|
                if e.0 == item { (e.0, CERTAIN, e.2) } else { e }));
        }
    }
}

/// The smaller of two lengths.
pub open spec fn min_len(a: nat, b: nat) -> nat {
    if a < b { a } else { b }
}

} // verus!
