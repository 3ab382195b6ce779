//! How the map grows: the level each block opens at, and generating a
//! block's terrain and points of interest when it first opens.

use vstd::prelude::*;
use super::map::{GameMap, MapTile, TerrainType, Poi, BLOCK_SIZE, MAP_SIZE, tile_finds, terrain_game};
use crate::mapgen::terrain::Terrain;
use crate::mapgen::grid::{Cell, grid_count, grid_of, is_square, at, lemma_grid_count_uniform,
    filled_grid, row_count};
use crate::mapgen::generator::{Spec, generate, generated, on_grid, all_cells, apply_writes, run_vec,
    run_count, quota_total, lemma_run_of, lemma_same_elements, lemma_run_count_unique,
    lemma_run_count_absent, terrains_of, capacity, largest_remainder, quota_floor, cluster_budget,
    list_error, entry_error, amount_total, may_split, grown_from, laid_out, whole_in, positive_of};
use crate::game::random::{shuffle, fresh_rng};

verus! {

/// How strongly terrain clumps, in thousandths.
pub const MAP_AFFINITY: u32 = 750;
/// The cluster shares (in ninths of a percent): Deadland, Meadow and Forest
/// in the ratio 40:30:20.
pub const DEADLAND_SHARE: u32 = 400;
pub const MEADOW_SHARE: u32 = 300;
pub const FOREST_SHARE: u32 = 200;
/// POI density, in percent of a block's tiles.
pub const CAVE_PERCENT: usize = 5;
pub const RUINS_PERCENT: usize = 2;

/// `(level at which a block opens, its (col, row) in the 3×3 grid of blocks)`.
pub open spec fn block_unlocks() -> Seq<(u32, (usize, usize))> {
    seq![
        (1u32, (1usize, 1usize)),
        (2u32, (1usize, 0usize)),
        (3u32, (0usize, 0usize)),
        (3u32, (0usize, 1usize)),
        (4u32, (2usize, 0usize)),
        (4u32, (2usize, 1usize)),
        (5u32, (0usize, 2usize)),
        (5u32, (1usize, 2usize)),
        (5u32, (2usize, 2usize)),
    ]
}

/// The blocks of `s` that have opened by `level`, in order.
pub open spec fn opened(s: Seq<(u32, (usize, usize))>, level: u32) -> Seq<(usize, usize)>
    decreases s.len(),
{
    if s.len() == 0 {
        seq![]
    } else if s.last().0 <= level {
        opened(s.drop_last(), level).push(s.last().1)
    } else {
        opened(s.drop_last(), level)
    }
}

/// The blocks open at `level`: cumulative, every block from a lower
/// threshold stays included.
pub open spec fn unlocked_at(level: u32) -> Seq<(usize, usize)> {
    opened(block_unlocks(), level)
}

proof fn lemma_opened_from(s: Seq<(u32, (usize, usize))>, level: u32)
    ensures
        forall|i: int| 0 <= i < opened(s, level).len() ==> exists|j: int| 0 <= j < s.len() && s[j].1 == #[trigger] opened(s, level)[i],
    decreases s.len(),
{
    if s.len() > 0 {
        lemma_opened_from(s.drop_last(), level);
        let o = opened(s.drop_last(), level);
        assert forall|i: int| 0 <= i < opened(s, level).len() implies exists|j: int| 0 <= j < s.len() && s[j].1 == #[trigger] opened(s, level)[i] by {
            if i < o.len() {
                assert(opened(s, level)[i] == o[i]);
                let j = choose|j: int| 0 <= j < s.drop_last().len() && s.drop_last()[j].1 == o[i];
                assert(s[j] == s.drop_last()[j]);
            } else {
                assert(s[s.len() - 1].1 == opened(s, level)[i]);
            }
        }
    }
}

/// Every block open at any level lies in the 3×3 grid.
pub proof fn lemma_unlocked_in_grid(level: u32)
    ensures
        forall|i: int| 0 <= i < unlocked_at(level).len() ==> (#[trigger] unlocked_at(level)[i]).0 < 3 && unlocked_at(level)[i].1 < 3,
{
    lemma_opened_from(block_unlocks(), level);
    assert forall|i: int| 0 <= i < unlocked_at(level).len() implies (#[trigger] unlocked_at(level)[i]).0 < 3 && unlocked_at(level)[i].1 < 3 by {
        let j = choose|j: int| 0 <= j < block_unlocks().len() && block_unlocks()[j].1 == unlocked_at(level)[i];
        assert(block_unlocks()[j].1.0 < 3 && block_unlocks()[j].1.1 < 3);
    }
}

fn block_table() -> (r: Vec<(u32, (usize, usize))>)
    ensures
        r@ == block_unlocks(),
{
    let r = vec![
        (1u32, (1usize, 1usize)),
        (2u32, (1usize, 0usize)),
        (3u32, (0usize, 0usize)),
        (3u32, (0usize, 1usize)),
        (4u32, (2usize, 0usize)),
        (4u32, (2usize, 1usize)),
        (5u32, (0usize, 2usize)),
        (5u32, (1usize, 2usize)),
        (5u32, (2usize, 2usize)),
    ];
    assert(r@ =~= block_unlocks());
    r
}

/// The blocks unlocked at `level`, in the table's order.
pub fn unlocked_blocks(level: u32) -> (r: Vec<(usize, usize)>)
    ensures
        r@ == unlocked_at(level),
{
    let table = block_table();
    let mut r: Vec<(usize, usize)> = Vec::new();
    let mut i: usize = 0;
    while i < table.len()
        invariant
            i <= table@.len(),
            table@ == block_unlocks(),
            r@ == opened(table@.subrange(0, i as int), level),
        decreases table.len() - i,
    {
        assert(table@.subrange(0, i as int + 1).drop_last() =~= table@.subrange(0, i as int));
        if table[i].0 <= level {
            r.push(table[i].1);
        }
        i = i + 1;
    }
    assert(table@.subrange(0, table@.len() as int) =~= table@);
    r
}

/// The tile rows `[start, end)` and columns `[start, end)` that `block`
/// (`(col, row)`) covers.
pub open spec fn spec_block_bounds(block: (usize, usize)) -> ((int, int), (int, int)) {
    let (col, row) = block;
    ((row * 17, (row + 1) * 17), (col * 17, (col + 1) * 17))
}

/// The tile-index `(rows, cols)` ranges, each `(start, end)`, that `block`
/// occupies in the fixed grid.
pub fn block_bounds(block: (usize, usize)) -> (r: ((usize, usize), (usize, usize)))
    requires
        (block.0 + 1) * 17 <= usize::MAX,
        (block.1 + 1) * 17 <= usize::MAX,
    ensures
        ((r.0.0 as int, r.0.1 as int), (r.1.0 as int, r.1.1 as int)) == spec_block_bounds(block),
{
    let (col, row) = block;
    ((row * BLOCK_SIZE, (row + 1) * BLOCK_SIZE), (col * BLOCK_SIZE, (col + 1) * BLOCK_SIZE))
}

/// The block `(col, row)` of tile `(x, y)`.
pub open spec fn block_of(x: int, y: int) -> (int, int) {
    (x / 17, y / 17)
}

impl GameMap {
    /// Every tile of `block` is still Deadland.
    pub open spec fn ungenerated(&self, block: (usize, usize)) -> bool {
        forall|x: int, y: int| block_of(x, y) == (block.0 as int, block.1 as int) && 0 <= x < MAP_SIZE && 0 <= y < MAP_SIZE
            ==> #[trigger] self.tile_at(x, y).terrain_type == TerrainType::Deadland
    }

    /// Whether every tile of `block` is still Deadland, the sign that it was
    /// never generated: a real generation always places some Meadow.
    pub fn block_is_ungenerated(&self, block: (usize, usize)) -> (r: bool)
        requires
            self.is_full_grid(),
            block.0 < 3,
            block.1 < 3,
        ensures
            r == self.ungenerated(block),
    {
        let ((r0, r1), (c0, c1)) = block_bounds(block);
        let mut y = r0;
        while y < r1
            invariant
                self.is_full_grid(),
                block.0 < 3 && block.1 < 3,
                r0 == block.1 * 17 && r1 == (block.1 + 1) * 17,
                c0 == block.0 * 17 && c1 == (block.0 + 1) * 17,
                r0 <= y <= r1,
                forall|x: int, j: int| c0 <= x < c1 && r0 <= j < y ==> #[trigger] self.tile_at(x, j).terrain_type == TerrainType::Deadland,
            decreases r1 - y,
        {
            let mut x = c0;
            while x < c1
                invariant
                    self.is_full_grid(),
                    r0 <= y < r1 <= MAP_SIZE,
                    c0 <= x <= c1 <= MAP_SIZE,
                    block.0 < 3 && block.1 < 3,
                    r0 == block.1 * 17 && r1 == (block.1 + 1) * 17,
                    c0 == block.0 * 17 && c1 == (block.0 + 1) * 17,
                    forall|a: int, j: int| c0 <= a < c1 && r0 <= j < y ==> #[trigger] self.tile_at(a, j).terrain_type == TerrainType::Deadland,
                    forall|a: int| c0 <= a < x ==> #[trigger] self.tile_at(a, y as int).terrain_type == TerrainType::Deadland,
                decreases c1 - x,
            {
                assert(self.tiles@[y as int]@.len() == MAP_SIZE);
                if self.tiles[y][x].terrain_type != TerrainType::Deadland {
                    assert(block_of(x as int, y as int) == (block.0 as int, block.1 as int));
                    assert(self.tile_at(x as int, y as int).terrain_type != TerrainType::Deadland);
                    assert(!self.ungenerated(block));
                    return false;
                }
                x = x + 1;
            }
            y = y + 1;
        }
        assert forall|x: int, y: int| block_of(x, y) == (block.0 as int, block.1 as int) && 0 <= x < MAP_SIZE && 0 <= y < MAP_SIZE
            implies #[trigger] self.tile_at(x, y).terrain_type == TerrainType::Deadland by {
            assert(c0 <= x < c1 && r0 <= y < r1);
        }
        true
    }
}


/// The POI a scattered terrain stands for.
pub open spec fn poi_of(t: Terrain) -> Option<Poi> {
    match t {
        Terrain::Cave => Some(Poi::Cave),
        Terrain::Ruins => Some(Poi::Ruins),
        _ => None,
    }
}

/// `percent` of `n` tiles, rounded to the nearest whole tile (halves up).
pub open spec fn share_of_tiles(percent: nat, n: nat) -> nat {
    (percent * n + 50) / 100
}

/// What every scatter of POIs over a `size` grid satisfies: for some
/// terrain grid `tg` holding exactly the Cave and Ruins quotas on a
/// Deadland background (the centre left out when excluded), each cell's
/// POI is the one its terrain stands for.
pub open spec fn scattered_pois(size: nat, exclude_centre: bool, tg: Seq<Seq<Terrain>>, pois: Seq<Seq<Option<Poi>>>) -> bool {
    let n = size * size;
    &&& is_square(tg, size)
    &&& grid_count(tg, Terrain::Cave) == share_of_tiles(CAVE_PERCENT as nat, n)
    &&& grid_count(tg, Terrain::Ruins) == share_of_tiles(RUINS_PERCENT as nat, n)
    &&& grid_count(tg, Terrain::Meadow) == 0
    &&& grid_count(tg, Terrain::Forest) == 0
    &&& grid_count(tg, Terrain::Village) == 0
    &&& exclude_centre ==> at(tg, ((size / 2) as usize, (size / 2) as usize)) == Terrain::Deadland
    &&& pois.len() == size
    &&& forall|y: int| 0 <= y < size ==> (#[trigger] pois[y]).len() == size
    &&& forall|x: int, y: int| 0 <= y < size && 0 <= x < size ==> #[trigger] pois[y][x] == poi_of(tg[y][x])
}

/// The POI grid as nested sequences.
pub open spec fn pois_of(p: &Vec<Vec<Option<Poi>>>) -> Seq<Seq<Option<Poi>>> {
    p@.map_values(|row: Vec<Option<Poi>>| row@)
}

fn poi_for(t: Terrain) -> (r: Option<Poi>)
    ensures
        r == poi_of(t),
{
    match t {
        Terrain::Cave => Some(Poi::Cave),
        Terrain::Ruins => Some(Poi::Ruins),
        _ => None,
    }
}

/// Scatters Cave and Ruins POIs across a `size`×`size` grid, 5% and 2% of
/// the tiles (rounded), on cells drawn uniformly at random. With
/// `exclude_centre` the centre cell is never drawn: it is where the village
/// goes.
pub fn scatter_pois(size: usize, exclude_centre: bool) -> (r: Vec<Vec<Option<Poi>>>)
    requires
        5 <= size <= 255,
        size % 2 == 1,
    ensures
        exists|tg: Seq<Seq<Terrain>>| #[trigger] scattered_pois(size as nat, exclude_centre, tg, pois_of(&r)),
{
    let ghost sz = size as nat;
    proof {
        assert(sz * sz <= 255 * 255 && sz * sz >= 25) by (nonlinear_arith)
            requires 5 <= sz <= 255;
    }
    let n = size * size;
    let caves = (CAVE_PERCENT * n + 50) / 100;
    let ruins = (RUINS_PERCENT * n + 50) / 100;
    let mut cells = all_cells(size, exclude_centre);
    let ghost every = cells@;
    shuffle(&mut cells);
    let ghost shuffled = cells@;
    let _rest = cells.split_off(caves + ruins);
    let q: Vec<(Terrain, usize)> = vec![(Terrain::Cave, caves), (Terrain::Ruins, ruins)];
    proof {
        assert(q@.drop_last().drop_last() =~= Seq::<(Terrain, usize)>::empty());
        assert(quota_total(Seq::<(Terrain, usize)>::empty()) == 0);
        assert(q@.drop_last().last() == (Terrain::Cave, caves));
        assert(quota_total(q@.drop_last()) == caves);
        assert(quota_total(q@) == caves + ruins);
    }
    let labels = run_vec(&q);
    let mut tg = filled_grid(size, Terrain::Deadland);
    proof {
        lemma_run_of(q@, Terrain::Cave);
        lemma_same_elements(every, shuffled);
        assert forall|i: int| 0 <= i < cells@.len() implies every.contains(#[trigger] cells@[i]) by {
            assert(cells@[i] == shuffled[i]);
        }
        if shuffled.no_duplicates() {
            assert(cells@.no_duplicates()) by {
                assert forall|a: int, b: int| 0 <= a < cells@.len() && 0 <= b < cells@.len() && a != b
                    implies cells@[a] != cells@[b] by {
                    assert(cells@[a] == shuffled[a]);
                    assert(cells@[b] == shuffled[b]);
                }
            }
        }
        let u = Seq::new(sz, |i: int| Seq::new(sz, |j: int| Terrain::Deadland));
        assert forall|i: int| 0 <= i < cells@.len() implies on_grid(#[trigger] cells@[i], sz) by {
            assert(every.contains(cells@[i]));
        }
        assert forall|i: int| 0 <= i < cells@.len() implies at(grid_of(&tg), #[trigger] cells@[i]) == Terrain::Deadland by {
            assert(every.contains(cells@[i]));
            assert(u[cells@[i].1 as int][cells@[i].0 as int] == Terrain::Deadland);
        }
    }
    let ghost g0 = grid_of(&tg);
    apply_writes(&mut tg, &cells, &labels, Ghost(sz));
    proof {
        let gf = grid_of(&tg);
        assert forall|t: Terrain| #[trigger] grid_count(g0, t) == if t == Terrain::Deadland { sz * sz } else { 0 } by {
            lemma_grid_count_uniform(sz, sz, Terrain::Deadland, t);
        }
        assert(terrains_of(q@) =~= seq![Terrain::Cave, Terrain::Ruins]);
        assert(terrains_of(q@).no_duplicates());
        lemma_run_count_unique(q@, 0);
        lemma_run_count_unique(q@, 1);
        assert forall|t: Terrain| t != Terrain::Cave && t != Terrain::Ruins implies run_count(q@, t) == 0 by {
            assert(!terrains_of(q@).contains(t));
            lemma_run_count_absent(q@, t);
        }
        assert forall|t: Terrain| #[trigger] row_count(labels@, t) == run_count(q@, t) by {
            lemma_run_of(q@, t);
        }
        assert(grid_count(gf, Terrain::Cave) == caves);
        assert(grid_count(gf, Terrain::Ruins) == ruins);
        assert(grid_count(gf, Terrain::Meadow) == 0);
        assert(grid_count(gf, Terrain::Forest) == 0);
        assert(grid_count(gf, Terrain::Village) == 0);
        if exclude_centre {
            let c: Cell = (size / 2, size / 2);
            assert(!cells@.contains(c)) by {
                if cells@.contains(c) {
                    let i = choose|i: int| 0 <= i < cells@.len() && cells@[i] == c;
                    assert(every.contains(cells@[i]));
                }
            }
            assert(on_grid(c, sz));
            assert(g0[c.1 as int][c.0 as int] == Terrain::Deadland);
        }
    }
    let mut r: Vec<Vec<Option<Poi>>> = Vec::new();
    let mut y: usize = 0;
    while y < size
        invariant
            y <= size,
            sz == size,
            is_square(grid_of(&tg), sz),
            pois_of(&r).len() == y,
            forall|j: int| 0 <= j < y ==> (#[trigger] pois_of(&r)[j]).len() == size,
            forall|x: int, j: int| 0 <= j < y && 0 <= x < size ==> #[trigger] pois_of(&r)[j][x] == poi_of(grid_of(&tg)[j][x]),
        decreases size - y,
    {
        let mut row: Vec<Option<Poi>> = Vec::new();
        let mut x: usize = 0;
        proof {
            assert(grid_of(&tg)[y as int] == tg@[y as int]@);
        }
        while x < size
            invariant
                x <= size,
                y < size,
                sz == size,
                is_square(grid_of(&tg), sz),
                grid_of(&tg)[y as int] == tg@[y as int]@,
                row@.len() == x,
                forall|i: int| 0 <= i < x ==> #[trigger] row@[i] == poi_of(grid_of(&tg)[y as int][i]),
            decreases size - x,
        {
            row.push(poi_for(tg[y][x]));
            x = x + 1;
        }
        let ghost pre = r@;
        let ghost rv = row@;
        assert(pois_of(&r).len() == pre.len());
        r.push(row);
        proof {
            assert forall|j: int| 0 <= j < y implies #[trigger] pois_of(&r)[j] == pre[j]@ by {
                assert(r@[j] == pre[j]);
            }
            assert forall|j: int| 0 <= j < y implies pre[j]@ == pre.map_values(|row: Vec<Option<Poi>>| row@)[j] by {}
            assert(pois_of(&r)[y as int] == rv);
        }
        y = y + 1;
    }
    proof {
        assert(scattered_pois(sz, exclude_centre, grid_of(&tg), pois_of(&r)));
    }
    r
}


/// The generator settings every block is made with (bar the affinity).
pub open spec fn is_block_spec(s: &Spec) -> bool {
    &&& s.size == BLOCK_SIZE
    &&& s.clusters@ == seq![
        (Terrain::Deadland, DEADLAND_SHARE),
        (Terrain::Meadow, MEADOW_SHARE),
        (Terrain::Forest, FOREST_SHARE),
    ]
    &&& s.scatter@ == Seq::<(Terrain, u32)>::empty()
    &&& !s.centre_village
}

fn block_spec(affinity: u32) -> (r: Spec)
    ensures
        is_block_spec(&r),
        r.affinity == affinity,
{
    let r = Spec {
        size: BLOCK_SIZE,
        clusters: vec![
            (Terrain::Deadland, DEADLAND_SHARE),
            (Terrain::Meadow, MEADOW_SHARE),
            (Terrain::Forest, FOREST_SHARE),
        ],
        scatter: vec![],
        affinity,
        centre_village: false,
    };
    assert(r.clusters@ =~= seq![
        (Terrain::Deadland, DEADLAND_SHARE),
        (Terrain::Meadow, MEADOW_SHARE),
        (Terrain::Forest, FOREST_SHARE),
    ]);
    assert(r.scatter@ =~= Seq::<(Terrain, u32)>::empty());
    r
}

proof fn lemma_block_spec_ok(s: &Spec)
    requires
        is_block_spec(s),
    ensures
        s.spec_check() is Ok,
        s.within_limits(),
        cluster_budget(s) == 289,
{
    let c = s.clusters@;
    assert(terrains_of(c.subrange(0, 0)) =~= Seq::<Terrain>::empty());
    assert(terrains_of(c.subrange(0, 1)) =~= seq![Terrain::Deadland]);
    assert(terrains_of(c.subrange(0, 2)) =~= seq![Terrain::Deadland, Terrain::Meadow]);
    assert(entry_error(c, true, 0).is_none());
    assert(entry_error(c, true, 1).is_none());
    assert(entry_error(c, true, 2).is_none());
    assert(list_error(c, true, 3).is_none());
    assert(list_error(c, true, 2).is_none());
    assert(list_error(c, true, 1).is_none());
    assert(list_error(c, true, 0).is_none());
    assert(list_error(s.scatter@, false, 0).is_none());
    assert(c.drop_last().drop_last().drop_last() =~= Seq::<(Terrain, u32)>::empty());
    assert(amount_total(c.drop_last().drop_last()) == 400);
    assert(amount_total(c.drop_last()) == 700);
    assert(amount_total(c) == 900);
    assert(amount_total(s.scatter@) == 0);
    assert(capacity(17, false) == 289);
}

/// The terrain type a generated terrain stands for on the map.
pub open spec fn map_terrain(t: Terrain) -> TerrainType {
    match t {
        Terrain::Meadow => TerrainType::Meadow,
        Terrain::Forest => TerrainType::Forest,
        _ => TerrainType::Deadland,
    }
}

fn map_terrain_of(t: Terrain) -> (r: TerrainType)
    ensures
        r == map_terrain(t),
{
    match t {
        Terrain::Meadow => TerrainType::Meadow,
        Terrain::Forest => TerrainType::Forest,
        _ => TerrainType::Deadland,
    }
}

/// Some cell of `g` holds `t` when `t` is counted there.
pub proof fn lemma_count_witness(g: Seq<Seq<Terrain>>, t: Terrain)
    requires
        grid_count(g, t) > 0,
    ensures
        exists|x: int, y: int| 0 <= y < g.len() && 0 <= x < g[y].len() && #[trigger] g[y][x] == t,
    decreases g.len(),
{
    if grid_count(g.drop_last(), t) > 0 {
        lemma_count_witness(g.drop_last(), t);
        let (x, y) = choose|x: int, y: int| 0 <= y < g.drop_last().len() && 0 <= x < g.drop_last()[y].len() && #[trigger] g.drop_last()[y][x] == t;
        assert(g[y][x] == t);
    } else {
        let y = g.len() - 1;
        lemma_row_witness(g[y], t);
        let x = choose|x: int| 0 <= x < g[y].len() && g[y][x] == t;
        assert(g[y][x] == t);
    }
}

proof fn lemma_row_witness(row: Seq<Terrain>, t: Terrain)
    requires
        row_count(row, t) > 0,
    ensures
        exists|x: int| 0 <= x < row.len() && row[x] == t,
    decreases row.len(),
{
    if row.last() != t {
        lemma_row_witness(row.drop_last(), t);
        let x = choose|x: int| 0 <= x < row.drop_last().len() && row.drop_last()[x] == t;
        assert(row[x] == t);
    }
}

/// A generated block always holds some Meadow.
proof fn lemma_block_has_meadow(s: &Spec, lg: Seq<Seq<Terrain>>)
    requires
        is_block_spec(s),
        generated(s, lg),
    ensures
        exists|x: int, y: int| 0 <= y < 17 && 0 <= x < 17 && #[trigger] lg[y][x] == Terrain::Meadow,
{
    lemma_block_spec_ok(s);
    let q = choose|q: Seq<(Terrain, usize)>| #[trigger] largest_remainder(s.clusters@, cluster_budget(s), q)
        && forall|i: int| 0 <= i < q.len() ==> grid_count(lg, (#[trigger] q[i]).0) == q[i].1;
    assert(q[1].0 == Terrain::Meadow);
    assert(quota_floor(300, 289) == 96);
    assert(q[1].1 >= 96);
    assert(grid_count(lg, Terrain::Meadow) > 0);
    lemma_count_witness(lg, Terrain::Meadow);
}

/// Tile `(x, y)` of `block` was made from local cell `(x - c0, y - r0)` of
/// the terrain grid `lg` and POI grid `pg`, the village standing at the
/// centre of the centre block.
pub open spec fn made_from(m: &GameMap, block: (usize, usize), lg: Seq<Seq<Terrain>>, pg: Seq<Seq<Option<Poi>>>, x: int, y: int) -> bool {
    let lx = x - block.0 * 17;
    let ly = y - block.1 * 17;
    let t = m.tile_at(x, y);
    let village = is_centre(block) && lx == 8 && ly == 8;
    &&& t.terrain_type == map_terrain(lg[ly][lx])
    &&& t.poi == if village { Some(Poi::Village) } else { pg[ly][lx] }
    &&& t.items@ == tile_finds(t.terrain_type, pg[ly][lx])
    &&& t.hunt_items@ == terrain_game(t.terrain_type)
    &&& t.last_search_time.is_none()
    &&& t.last_hunt_time.is_none()
}

/// Whether a layout may split depends only on the size, the lists and the
/// village, so it is the same for two block specs.
proof fn lemma_may_split_same(a: &Spec, b: &Spec)
    requires
        is_block_spec(a),
        is_block_spec(b),
        may_split(a),
    ensures
        may_split(b),
{
    let (q, sh, lay, pg) = choose|q: Seq<(Terrain, usize)>, sh: Seq<Cell>, lay: Seq<Cell>, pg: Seq<Seq<Terrain>>|
        #[trigger] laid_out(a, q, sh, lay, pg) && !whole_in(pg, positive_of(q));
    assert(cluster_budget(a) == cluster_budget(b));
    assert(laid_out(b, q, sh, lay, pg));
}

/// A block's terrain: clustered at the map's affinity, or, should that
/// layout come out split, fully mixed.
fn block_terrain() -> (r: Vec<Vec<Terrain>>)
    ensures
        exists|s: Spec| is_block_spec(&s) && #[trigger] generated(&s, grid_of(&r))
            && (s.affinity == MAP_AFFINITY || (s.affinity == 0 && may_split(&s)))
            && (s.affinity > 0 ==> grown_from(&s, grid_of(&r))),
{
    let spec = block_spec(MAP_AFFINITY);
    proof {
        lemma_block_spec_ok(&spec);
    }
    let mut rng = fresh_rng();
    match generate(&spec, &mut rng) {
        Ok(g) => {
            assert(is_block_spec(&spec) && generated(&spec, grid_of(&g))
                && (spec.affinity == MAP_AFFINITY || (spec.affinity == 0 && may_split(&spec)))
                && (spec.affinity > 0 ==> grown_from(&spec, grid_of(&g))));
            g
        },
        Err(_) => {
            let calm = block_spec(0);
            proof {
                lemma_block_spec_ok(&calm);
                lemma_may_split_same(&spec, &calm);
            }
            match generate(&calm, &mut rng) {
                Ok(g) => {
                    assert(is_block_spec(&calm) && generated(&calm, grid_of(&g))
                        && (calm.affinity == MAP_AFFINITY || (calm.affinity == 0 && may_split(&calm)))
                        && (calm.affinity > 0 ==> grown_from(&calm, grid_of(&g))));
                    g
                },
                Err(_) => {
                    proof {
                        assert(false);
                    }
                    filled_grid(BLOCK_SIZE, Terrain::Deadland)
                },
            }
        },
    }
}

impl GameMap {
    /// Generates `block`'s terrain and POIs: the terrain from the block
    /// generator, the Cave/Ruins scatter over it, and the Village at the
    /// centre of the centre block. Every other tile stays as it was. Should
    /// the clustered layout come out split, the block is generated fully
    /// mixed instead.
    pub fn generate_block(&mut self, block: (usize, usize))
        requires
            old(self).is_full_grid(),
            block.0 < 3,
            block.1 < 3,
        ensures
            final(self).is_full_grid(),
            final(self).half == old(self).half,
            forall|x: int, y: int| 0 <= x < MAP_SIZE && 0 <= y < MAP_SIZE && block_of(x, y) != (block.0 as int, block.1 as int)
                ==> #[trigger] final(self).tile_at(x, y) == old(self).tile_at(x, y),
            exists|s: Spec, lg: Seq<Seq<Terrain>>, tg: Seq<Seq<Terrain>>, pg: Seq<Seq<Option<Poi>>>|
                #![trigger generated(&s, lg), scattered_pois(17, is_centre(block), tg, pg)]
                is_block_spec(&s) && generated(&s, lg) && scattered_pois(17, is_centre(block), tg, pg)
                && (s.affinity == MAP_AFFINITY || (s.affinity == 0 && may_split(&s)))
                && (s.affinity > 0 ==> grown_from(&s, lg))
                && forall|x: int, y: int| 0 <= x < MAP_SIZE && 0 <= y < MAP_SIZE && block_of(x, y) == (block.0 as int, block.1 as int)
                    ==> #[trigger] made_from(final(self), block, lg, pg, x, y),
            !final(self).ungenerated(block),
    {
        let local = block_terrain();
        let ghost lg = grid_of(&local);
        assert(exists|s: Spec| is_block_spec(&s) && #[trigger] generated(&s, lg)
            && (s.affinity == MAP_AFFINITY || (s.affinity == 0 && may_split(&s)))
            && (s.affinity > 0 ==> grown_from(&s, lg)));
        let ghost used = choose|s: Spec| is_block_spec(&s) && #[trigger] generated(&s, lg)
            && (s.affinity == MAP_AFFINITY || (s.affinity == 0 && may_split(&s)))
            && (s.affinity > 0 ==> grown_from(&s, lg));
        let centre = block.0 == 1 && block.1 == 1;
        let pois = scatter_pois(BLOCK_SIZE, centre);
        let ghost pg = pois_of(&pois);
        let ghost tg = choose|tg: Seq<Seq<Terrain>>| #[trigger] scattered_pois(17, centre, tg, pg);
        let ghost before = *self;
        proof {
            assert(is_square(lg, 17));
        }
        self.write_block(block, &local, &pois);
        let ((r0, _r1), (c0, _c1)) = block_bounds(block);
        let ghost written = *self;
        if centre {
            assert(self.tiles@[r0 as int + 8]@.len() == MAP_SIZE);
            self.tiles[r0 + 8][c0 + 8].poi = Some(Poi::Village);
            proof {
                assert forall|x: int, y: int| 0 <= x < MAP_SIZE && 0 <= y < MAP_SIZE && !(x == c0 + 8 && y == r0 + 8)
                    implies #[trigger] self.tile_at(x, y) == written.tile_at(x, y) by {
                    if y == r0 + 8 {
                        assert(self.tiles@[y]@[x] == written.tiles@[y]@[x]);
                    } else {
                        assert(self.tiles@[y] == written.tiles@[y]);
                    }
                }
                assert forall|y: int| 0 <= y < MAP_SIZE implies (#[trigger] self.tiles@[y])@.len() == MAP_SIZE by {
                    assert(written.tiles@[y]@.len() == MAP_SIZE);
                }
                assert(at(tg, (8usize, 8usize)) == Terrain::Deadland);
                assert(pg[8][8] == poi_of(tg[8][8]));
            }
        }
        proof {
            assert forall|x: int, y: int| 0 <= x < MAP_SIZE && 0 <= y < MAP_SIZE && block_of(x, y) == (block.0 as int, block.1 as int)
                implies #[trigger] made_from(self, block, lg, pg, x, y) by {
                assert(fresh_from(written.tile_at(x, y), lg[y - r0][x - c0], pg[y - r0][x - c0]));
            }
            assert(scattered_pois(17, is_centre(block), tg, pg));
            assert(generated(&used, lg));
            lemma_block_has_meadow(&used, lg);
            let (mx, my) = choose|x: int, y: int| 0 <= y < 17 && 0 <= x < 17 && #[trigger] lg[y][x] == Terrain::Meadow;
            assert(made_from(self, block, lg, pg, mx + c0, my + r0));
            assert(self.tile_at(mx + c0, my + r0).terrain_type == TerrainType::Meadow);
            assert(block_of(mx + c0, my + r0) == (block.0 as int, block.1 as int));
        }
    }

    /// Lays the local grids `local` (terrain) and `pois` over `block`:
    /// every tile of the block becomes a fresh tile of that terrain and POI.
    fn write_block(&mut self, block: (usize, usize), local: &Vec<Vec<Terrain>>, pois: &Vec<Vec<Option<Poi>>>)
        requires
            old(self).is_full_grid(),
            block.0 < 3,
            block.1 < 3,
            is_square(grid_of(local), 17),
            pois_of(pois).len() == 17,
            forall|j: int| 0 <= j < 17 ==> (#[trigger] pois_of(pois)[j]).len() == 17,
        ensures
            final(self).is_full_grid(),
            final(self).half == old(self).half,
            forall|x: int, y: int| 0 <= x < MAP_SIZE && 0 <= y < MAP_SIZE && block_of(x, y) != (block.0 as int, block.1 as int)
                ==> #[trigger] final(self).tile_at(x, y) == old(self).tile_at(x, y),
            forall|x: int, y: int| 0 <= x < MAP_SIZE && 0 <= y < MAP_SIZE && block_of(x, y) == (block.0 as int, block.1 as int)
                ==> fresh_from(#[trigger] final(self).tile_at(x, y),
                    grid_of(local)[y - block.1 * 17][x - block.0 * 17], pois_of(pois)[y - block.1 * 17][x - block.0 * 17]),
    {
        let ((r0, _r1), (c0, _c1)) = block_bounds(block);
        let mut ly: usize = 0;
        while ly < BLOCK_SIZE
            invariant
                self.is_full_grid(),
                self.half == old(self).half,
                block.0 < 3 && block.1 < 3,
                r0 == block.1 * 17 && c0 == block.0 * 17,
                is_square(grid_of(local), 17),
                pois_of(pois).len() == 17,
                forall|j: int| 0 <= j < 17 ==> (#[trigger] pois_of(pois)[j]).len() == 17,
                ly <= 17,
                forall|x: int, y: int| 0 <= x < MAP_SIZE && 0 <= y < MAP_SIZE
                    && !(c0 <= x < c0 + 17 && r0 <= y < r0 + ly)
                    ==> #[trigger] self.tile_at(x, y) == old(self).tile_at(x, y),
                forall|x: int, y: int| c0 <= x < c0 + 17 && r0 <= y < r0 + ly
                    ==> fresh_from(#[trigger] self.tile_at(x, y), grid_of(local)[y - r0][x - c0], pois_of(pois)[y - r0][x - c0]),
            decreases 17 - ly,
        {
            let mut lx: usize = 0;
            while lx < BLOCK_SIZE
                invariant
                    self.is_full_grid(),
                    self.half == old(self).half,
                    block.0 < 3 && block.1 < 3,
                    r0 == block.1 * 17 && c0 == block.0 * 17,
                    is_square(grid_of(local), 17),
                    pois_of(pois).len() == 17,
                    forall|j: int| 0 <= j < 17 ==> (#[trigger] pois_of(pois)[j]).len() == 17,
                    ly < 17,
                    lx <= 17,
                    forall|x: int, y: int| 0 <= x < MAP_SIZE && 0 <= y < MAP_SIZE
                        && !(c0 <= x < c0 + 17 && r0 <= y < r0 + ly) && !(c0 <= x < c0 + lx && y == r0 + ly)
                        ==> #[trigger] self.tile_at(x, y) == old(self).tile_at(x, y),
                    forall|x: int, y: int| (c0 <= x < c0 + 17 && r0 <= y < r0 + ly) || (c0 <= x < c0 + lx && y == r0 + ly)
                        ==> fresh_from(#[trigger] self.tile_at(x, y), grid_of(local)[y - r0][x - c0], pois_of(pois)[y - r0][x - c0]),
                decreases 17 - lx,
            {
                proof {
                    assert(grid_of(local)[ly as int] == local@[ly as int]@);
                    assert(pois_of(pois)[ly as int] == pois@[ly as int]@);
                }
                let terr = map_terrain_of(local[ly][lx]);
                let tile = MapTile::with_terrain_and_poi(terr, pois[ly][lx]);
                let y = r0 + ly;
                let x = c0 + lx;
                let ghost pre = *self;
                assert(self.tiles@[y as int]@.len() == MAP_SIZE);
                self.tiles[y].set(x, tile);
                proof {
                    assert forall|a: int, b: int| 0 <= a < MAP_SIZE && 0 <= b < MAP_SIZE && !(a == x && b == y)
                        implies #[trigger] self.tile_at(a, b) == pre.tile_at(a, b) by {
                        if b == y {
                            assert(self.tiles@[b]@[a] == pre.tiles@[b]@[a]);
                        } else {
                            assert(self.tiles@[b] == pre.tiles@[b]);
                        }
                    }
                    assert forall|j: int| 0 <= j < MAP_SIZE implies (#[trigger] self.tiles@[j])@.len() == MAP_SIZE by {
                        assert(pre.tiles@[j]@.len() == MAP_SIZE);
                    }
                    assert(self.tile_at(x as int, y as int) == tile);
                }
                lx = lx + 1;
            }
            ly = ly + 1;
        }
        proof {
            assert forall|x: int, y: int| 0 <= x < MAP_SIZE && 0 <= y < MAP_SIZE && block_of(x, y) == (block.0 as int, block.1 as int)
                implies c0 <= x < c0 + 17 && r0 <= y < r0 + 17 by {}
            assert forall|x: int, y: int| 0 <= x < MAP_SIZE && 0 <= y < MAP_SIZE && block_of(x, y) != (block.0 as int, block.1 as int)
                implies !(c0 <= x < c0 + 17 && r0 <= y < r0 + 17) by {}
        }
    }
}

/// Whether `block` is the centre block, the one holding the village.
pub open spec fn is_centre(block: (usize, usize)) -> bool {
    block.0 == 1 && block.1 == 1
}

/// A tile freshly made from terrain `terr` and POI `p`.
pub open spec fn fresh_from(t: MapTile, terr: Terrain, p: Option<Poi>) -> bool {
    &&& t.terrain_type == map_terrain(terr)
    &&& t.poi == p
    &&& t.items@ == tile_finds(t.terrain_type, p)
    &&& t.hunt_items@ == terrain_game(t.terrain_type)
    &&& t.last_search_time.is_none()
    &&& t.last_hunt_time.is_none()
}


/// The blocks of a table, without their levels.
pub open spec fn blocks_of(s: Seq<(u32, (usize, usize))>) -> Seq<(usize, usize)> {
    s.map_values(|e: (u32, (usize, usize))| e.1)
}

proof fn lemma_opened_distinct(s: Seq<(u32, (usize, usize))>, level: u32)
    requires
        blocks_of(s).no_duplicates(),
    ensures
        opened(s, level).no_duplicates(),
        forall|b: (usize, usize)| opened(s, level).contains(b) ==> blocks_of(s).contains(b),
    decreases s.len(),
{
    if s.len() > 0 {
        assert(blocks_of(s.drop_last()) =~= blocks_of(s).drop_last());
        assert(blocks_of(s.drop_last()).no_duplicates()) by {
            assert forall|a: int, c: int| 0 <= a < blocks_of(s.drop_last()).len() && 0 <= c < blocks_of(s.drop_last()).len() && a != c
                implies blocks_of(s.drop_last())[a] != blocks_of(s.drop_last())[c] by {
                assert(blocks_of(s.drop_last())[a] == blocks_of(s)[a]);
                assert(blocks_of(s.drop_last())[c] == blocks_of(s)[c]);
            }
        }
        lemma_opened_distinct(s.drop_last(), level);
        let o = opened(s.drop_last(), level);
        assert forall|b: (usize, usize)| opened(s, level).contains(b) implies blocks_of(s).contains(b) by {
            if o.contains(b) {
                assert(blocks_of(s.drop_last()).contains(b));
                let j = choose|j: int| 0 <= j < blocks_of(s.drop_last()).len() && blocks_of(s.drop_last())[j] == b;
                assert(blocks_of(s)[j] == b);
            } else {
                assert(blocks_of(s)[s.len() - 1] == b);
            }
        }
        if s.last().0 <= level {
            assert(!o.contains(s.last().1)) by {
                if o.contains(s.last().1) {
                    assert(blocks_of(s.drop_last()).contains(s.last().1));
                    let j = choose|j: int| 0 <= j < blocks_of(s.drop_last()).len() && blocks_of(s.drop_last())[j] == s.last().1;
                    assert(blocks_of(s)[j] == blocks_of(s)[s.len() - 1]);
                }
            }
        }
    }
}

/// No block opens twice.
pub proof fn lemma_unlocked_distinct(level: u32)
    ensures
        unlocked_at(level).no_duplicates(),
{
    let b = blocks_of(block_unlocks());
    assert(b =~= seq![(1usize, 1usize), (1usize, 0usize), (0usize, 0usize), (0usize, 1usize), (2usize, 0usize),
        (2usize, 1usize), (0usize, 2usize), (1usize, 2usize), (2usize, 2usize)]);
    assert(b.no_duplicates());
    lemma_opened_distinct(block_unlocks(), level);
}

impl GameMap {
    /// Every tile of `block` was made from some generated terrain grid and
    /// POI scatter.
    pub open spec fn block_made(&self, block: (usize, usize)) -> bool {
        exists|s: Spec, lg: Seq<Seq<Terrain>>, tg: Seq<Seq<Terrain>>, pg: Seq<Seq<Option<Poi>>>|
            #![trigger generated(&s, lg), scattered_pois(17, is_centre(block), tg, pg)]
            is_block_spec(&s) && generated(&s, lg) && scattered_pois(17, is_centre(block), tg, pg)
            && forall|x: int, y: int| 0 <= x < MAP_SIZE && 0 <= y < MAP_SIZE && block_of(x, y) == (block.0 as int, block.1 as int)
                ==> #[trigger] made_from(self, block, lg, pg, x, y)
    }

    /// Generates every block `level` has opened that is still all
    /// Deadland; blocks generated before are left alone, so calling it again
    /// changes nothing. A map that isn't the full-grown `MAP_SIZE` grid is
    /// left alone.
    pub fn reveal_for_level(&mut self, level: u32)
        requires
            old(self).tiles@.len() == MAP_SIZE ==> old(self).is_full_grid(),
        ensures
            revealed(old(self), final(self), level),
    {
        if self.tiles.len() != MAP_SIZE {
            return;
        }
        let blocks = unlocked_blocks(level);
        proof {
            lemma_unlocked_in_grid(level);
            lemma_unlocked_distinct(level);
        }
        let mut i: usize = 0;
        while i < blocks.len()
            invariant
                blocks@ == unlocked_at(level),
                blocks@.no_duplicates(),
                forall|k: int| 0 <= k < blocks@.len() ==> (#[trigger] blocks@[k]).0 < 3 && blocks@[k].1 < 3,
                i <= blocks@.len(),
                self.is_full_grid(),
                self.half == old(self).half,
                forall|k: int| 0 <= k < i ==> !self.ungenerated(#[trigger] blocks@[k]),
                forall|k: int| 0 <= k < i && old(self).ungenerated(#[trigger] blocks@[k]) ==> self.block_made(blocks@[k]),
                forall|x: int, y: int| 0 <= x < MAP_SIZE && 0 <= y < MAP_SIZE
                    && !(blocks@.subrange(0, i as int).contains(block_pair(x, y)) && old(self).ungenerated(block_pair(x, y)))
                    ==> #[trigger] self.tile_at(x, y) == old(self).tile_at(x, y),
            decreases blocks.len() - i,
        {
            let b = blocks[i];
            let ghost pre = *self;
            proof {
                assert(!blocks@.subrange(0, i as int).contains(b)) by {
                    if blocks@.subrange(0, i as int).contains(b) {
                        let j = choose|j: int| 0 <= j < i && blocks@.subrange(0, i as int)[j] == b;
                        assert(blocks@[j] == blocks@[i as int]);
                    }
                }
                assert(blocks@[i as int] == b);
            }
            if self.block_is_ungenerated(b) {
                proof {
                    assert forall|x: int, y: int| block_of(x, y) == (b.0 as int, b.1 as int) && 0 <= x < MAP_SIZE && 0 <= y < MAP_SIZE
                        implies #[trigger] old(self).tile_at(x, y).terrain_type == TerrainType::Deadland by {
                        assert(block_pair(x, y) == b);
                        assert(pre.tile_at(x, y) == old(self).tile_at(x, y));
                        assert(pre.tile_at(x, y).terrain_type == TerrainType::Deadland);
                    }
                }
                self.generate_block(b);
                proof {
                    assert forall|k: int| 0 <= k < i implies !self.ungenerated(#[trigger] blocks@[k]) by {
                        assert(!pre.ungenerated(blocks@[k]));
                        let bk = blocks@[k];
                        let (x, y) = choose|x: int, y: int| block_of(x, y) == (bk.0 as int, bk.1 as int) && 0 <= x < MAP_SIZE && 0 <= y < MAP_SIZE
                            && #[trigger] pre.tile_at(x, y).terrain_type != TerrainType::Deadland;
                        assert(bk != b);
                        assert(self.tile_at(x, y) == pre.tile_at(x, y));
                    }
                    assert forall|k: int| 0 <= k < i && old(self).ungenerated(#[trigger] blocks@[k]) implies self.block_made(blocks@[k]) by {
                        let bk = blocks@[k];
                        assert(bk != b);
                        assert(pre.block_made(bk));
                        let (s, lg, tg, pg) = choose|s: Spec, lg: Seq<Seq<Terrain>>, tg: Seq<Seq<Terrain>>, pg: Seq<Seq<Option<Poi>>>|
                            #![trigger generated(&s, lg), scattered_pois(17, is_centre(bk), tg, pg)]
                            is_block_spec(&s) && generated(&s, lg) && scattered_pois(17, is_centre(bk), tg, pg)
                            && forall|x: int, y: int| 0 <= x < MAP_SIZE && 0 <= y < MAP_SIZE && block_of(x, y) == (bk.0 as int, bk.1 as int)
                                ==> #[trigger] made_from(&pre, bk, lg, pg, x, y);
                        assert forall|x: int, y: int| 0 <= x < MAP_SIZE && 0 <= y < MAP_SIZE && block_of(x, y) == (bk.0 as int, bk.1 as int)
                            implies #[trigger] made_from(self, bk, lg, pg, x, y) by {
                            assert(made_from(&pre, bk, lg, pg, x, y));
                            assert(self.tile_at(x, y) == pre.tile_at(x, y));
                        }
                    }
                    assert forall|x: int, y: int| 0 <= x < MAP_SIZE && 0 <= y < MAP_SIZE
                        && !(blocks@.subrange(0, i as int + 1).contains(block_pair(x, y)) && old(self).ungenerated(block_pair(x, y)))
                        implies #[trigger] self.tile_at(x, y) == old(self).tile_at(x, y) by {
                        assert(blocks@.subrange(0, i as int + 1)[i as int] == b);
                        if block_pair(x, y) == b {
                            assert(old(self).ungenerated(b));
                        }
                        if blocks@.subrange(0, i as int).contains(block_pair(x, y)) {
                            let j = choose|j: int| 0 <= j < i && blocks@.subrange(0, i as int)[j] == block_pair(x, y);
                            assert(blocks@.subrange(0, i as int + 1)[j] == block_pair(x, y));
                        }
                        assert(block_of(x, y) != (b.0 as int, b.1 as int));
                    }
                }
            } else {
                proof {
                    assert(!old(self).ungenerated(b)) by {
                        let (x, y) = choose|x: int, y: int| block_of(x, y) == (b.0 as int, b.1 as int) && 0 <= x < MAP_SIZE && 0 <= y < MAP_SIZE
                            && #[trigger] self.tile_at(x, y).terrain_type != TerrainType::Deadland;
                        assert(block_pair(x, y) == b);
                        assert(self.tile_at(x, y) == old(self).tile_at(x, y));
                    }
                    assert forall|x: int, y: int| 0 <= x < MAP_SIZE && 0 <= y < MAP_SIZE
                        && !(blocks@.subrange(0, i as int + 1).contains(block_pair(x, y)) && old(self).ungenerated(block_pair(x, y)))
                        implies #[trigger] self.tile_at(x, y) == old(self).tile_at(x, y) by {
                        if blocks@.subrange(0, i as int).contains(block_pair(x, y)) {
                            let j = choose|j: int| 0 <= j < i && blocks@.subrange(0, i as int)[j] == block_pair(x, y);
                            assert(blocks@.subrange(0, i as int + 1)[j] == block_pair(x, y));
                        }
                    }
                }
            }
            i = i + 1;
        }
        assert(blocks@.subrange(0, blocks@.len() as int) =~= blocks@);
    }
}

/// `after` is what revealing `level` makes of `before`: on the full-grown
/// grid every opened block is generated, the ones that were still Deadland
/// freshly, and every other tile is as it was; any other map is left alone.
pub open spec fn revealed(before: &GameMap, after: &GameMap, level: u32) -> bool {
    &&& before.tiles@.len() != MAP_SIZE ==> *after == *before
    &&& before.tiles@.len() == MAP_SIZE ==> {
        &&& after.is_full_grid()
        &&& after.half == before.half
        &&& forall|i: int| 0 <= i < unlocked_at(level).len() ==> !after.ungenerated(#[trigger] unlocked_at(level)[i])
        &&& forall|i: int| 0 <= i < unlocked_at(level).len() && before.ungenerated(#[trigger] unlocked_at(level)[i])
            ==> after.block_made(unlocked_at(level)[i])
        &&& forall|x: int, y: int| 0 <= x < MAP_SIZE && 0 <= y < MAP_SIZE
            && !(unlocked_at(level).contains(block_pair(x, y)) && before.ungenerated(block_pair(x, y)))
            ==> #[trigger] after.tile_at(x, y) == before.tile_at(x, y)
    }
}

/// Revealing a level a second time changes no tile: every block it opens
/// was generated the first time.
pub proof fn lemma_reveal_idempotent(m0: &GameMap, m1: &GameMap, m2: &GameMap, level: u32)
    requires
        revealed(m0, m1, level),
        revealed(m1, m2, level),
    ensures
        forall|x: int, y: int| 0 <= x < m1.tiles@.len() && 0 <= y < m1.tiles@.len()
            ==> #[trigger] m2.tile_at(x, y) == m1.tile_at(x, y),
{
    if m0.tiles@.len() == MAP_SIZE {
        assert forall|x: int, y: int| 0 <= x < m1.tiles@.len() && 0 <= y < m1.tiles@.len()
            implies #[trigger] m2.tile_at(x, y) == m1.tile_at(x, y) by {
            if unlocked_at(level).contains(block_pair(x, y)) {
                let i = choose|i: int| 0 <= i < unlocked_at(level).len() && unlocked_at(level)[i] == block_pair(x, y);
                assert(!m1.ungenerated(unlocked_at(level)[i]));
            }
        }
    }
}

/// The block `(col, row)` of tile `(x, y)`, as indices.
pub open spec fn block_pair(x: int, y: int) -> (usize, usize) {
    ((x / 17) as usize, (y / 17) as usize)
}


/// At level 1 only the centre block is open.
pub proof fn lemma_level_one()
    ensures
        unlocked_at(1) == seq![(1usize, 1usize)],
{
    reveal_with_fuel(opened, 10);
    assert(unlocked_at(1) =~= seq![(1usize, 1usize)]);
}

fn deadland_rows() -> (r: (Vec<Vec<TerrainType>>, Vec<Vec<Option<Poi>>>))
    ensures
        r.0@.len() == MAP_SIZE,
        r.1@.len() == MAP_SIZE,
        forall|y: int| 0 <= y < MAP_SIZE ==> (#[trigger] r.0@[y])@.len() == MAP_SIZE,
        forall|y: int| 0 <= y < MAP_SIZE ==> (#[trigger] r.1@[y])@.len() == MAP_SIZE,
        forall|x: int, y: int| 0 <= y < MAP_SIZE && 0 <= x < MAP_SIZE ==> #[trigger] r.0@[y]@[x] == TerrainType::Deadland,
        forall|x: int, y: int| 0 <= y < MAP_SIZE && 0 <= x < MAP_SIZE ==> #[trigger] r.1@[y]@[x] == None::<Poi>,
{
    let mut terrain: Vec<Vec<TerrainType>> = Vec::new();
    let mut pois: Vec<Vec<Option<Poi>>> = Vec::new();
    let mut y: usize = 0;
    while y < MAP_SIZE
        invariant
            y <= MAP_SIZE,
            terrain@.len() == y,
            pois@.len() == y,
            forall|j: int| 0 <= j < y ==> (#[trigger] terrain@[j])@.len() == MAP_SIZE,
            forall|j: int| 0 <= j < y ==> (#[trigger] pois@[j])@.len() == MAP_SIZE,
            forall|x: int, j: int| 0 <= j < y && 0 <= x < MAP_SIZE ==> #[trigger] terrain@[j]@[x] == TerrainType::Deadland,
            forall|x: int, j: int| 0 <= j < y && 0 <= x < MAP_SIZE ==> #[trigger] pois@[j]@[x] == None::<Poi>,
        decreases MAP_SIZE - y,
    {
        let mut trow: Vec<TerrainType> = Vec::new();
        let mut prow: Vec<Option<Poi>> = Vec::new();
        let mut x: usize = 0;
        while x < MAP_SIZE
            invariant
                x <= MAP_SIZE,
                trow@.len() == x,
                prow@.len() == x,
                forall|i: int| 0 <= i < x ==> #[trigger] trow@[i] == TerrainType::Deadland,
                forall|i: int| 0 <= i < x ==> #[trigger] prow@[i] == None::<Poi>,
            decreases MAP_SIZE - x,
        {
            trow.push(TerrainType::Deadland);
            prow.push(None);
            x = x + 1;
        }
        terrain.push(trow);
        pois.push(prow);
        y = y + 1;
    }
    (terrain, pois)
}

impl GameMap {
    /// A fresh, fixed `MAP_SIZE`×`MAP_SIZE` map: every tile starts as
    /// Deadland with no POI, then the level-1 block (the centre, holding the
    /// Village) is generated for real. The rest stays Deadland until
    /// `reveal_for_level` reaches it.
    pub fn new() -> (r: GameMap)
        ensures
            r.is_full_grid(),
            r.half == 25,
            r.block_made((1, 1)),
            r.tile_at(25, 25).poi == Some(Poi::Village),
            forall|x: int, y: int| 0 <= x < MAP_SIZE && 0 <= y < MAP_SIZE && block_pair(x, y) != (1usize, 1usize)
                ==> ({
                    let t = #[trigger] r.tile_at(x, y);
                    &&& t.terrain_type == TerrainType::Deadland
                    &&& t.poi == None::<Poi>
                    &&& t.items@ == tile_finds(TerrainType::Deadland, None)
                    &&& t.hunt_items@ == terrain_game(TerrainType::Deadland)
                    &&& t.last_search_time.is_none()
                    &&& t.last_hunt_time.is_none()
                }),
    {
        let (terrain, pois) = deadland_rows();
        let mut map = GameMap::from_terrain(terrain, pois);
        let ghost fresh = map;
        proof {
            assert(map.is_full_grid());
            assert(map.ungenerated((1, 1)));
            lemma_level_one();
            assert(unlocked_at(1)[0] == (1usize, 1usize));
        }
        map.reveal_for_level(1);
        proof {
            assert(map.block_made(unlocked_at(1)[0]));
            let (s, lg, tg, pg) = choose|s: Spec, lg: Seq<Seq<Terrain>>, tg: Seq<Seq<Terrain>>, pg: Seq<Seq<Option<Poi>>>|
                #![trigger generated(&s, lg), scattered_pois(17, is_centre((1usize, 1usize)), tg, pg)]
                is_block_spec(&s) && generated(&s, lg) && scattered_pois(17, is_centre((1usize, 1usize)), tg, pg)
                && forall|x: int, y: int| 0 <= x < MAP_SIZE && 0 <= y < MAP_SIZE && block_of(x, y) == (1int, 1int)
                    ==> #[trigger] made_from(&map, (1usize, 1usize), lg, pg, x, y);
            assert(made_from(&map, (1usize, 1usize), lg, pg, 25, 25));
            assert forall|x: int, y: int| 0 <= x < MAP_SIZE && 0 <= y < MAP_SIZE && block_pair(x, y) != (1usize, 1usize)
                implies #[trigger] map.tile_at(x, y) == fresh.tile_at(x, y) by {
                assert(!unlocked_at(1).contains(block_pair(x, y))) by {
                    if unlocked_at(1).contains(block_pair(x, y)) {
                        let i = choose|i: int| 0 <= i < unlocked_at(1).len() && unlocked_at(1)[i] == block_pair(x, y);
                    }
                }
            }
        }
        map
    }

    /// Whether `pos` is on the map and, on the full-grown grid, inside a
    /// block `level` has opened. Any other map is gated by its boundary
    /// alone.
    pub fn is_unlocked(&self, pos: (i32, i32), level: u32) -> (r: bool)
        ensures
            r == match self.tile_index(pos) {
                Some((x, y)) => self.tiles@.len() != MAP_SIZE || unlocked_at(level).contains(block_pair(x, y)),
                None => false,
            },
    {
        if !self.contains(pos) {
            return false;
        }
        if self.tiles.len() != MAP_SIZE {
            return true;
        }
        let (x, y) = self.world_to_tile(pos);
        let block = (x / BLOCK_SIZE, y / BLOCK_SIZE);
        assert(block == block_pair(x as int, y as int));
        assert(self.tile_index(pos) == Some((x as int, y as int)));
        let blocks = unlocked_blocks(level);
        let mut i: usize = 0;
        while i < blocks.len()
            invariant
                i <= blocks@.len(),
                blocks@ == unlocked_at(level),
                forall|k: int| 0 <= k < i ==> blocks@[k] != block,
                block == block_pair(x as int, y as int),
                self.tile_index(pos) == Some((x as int, y as int)),
                self.tiles@.len() == MAP_SIZE,
            decreases blocks.len() - i,
        {
            if blocks[i].0 == block.0 && blocks[i].1 == block.1 {
                assert(blocks@[i as int] == block);
                return true;
            }
            i = i + 1;
        }
        false
    }
}

} // verus!
