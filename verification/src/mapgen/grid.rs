//! Counting terrain on a grid, and how writes and swaps change the counts.

use vstd::prelude::*;
use super::terrain::Terrain;

verus! {

/// A grid cell, `(x, y)`: column then row.
pub type Cell = (usize, usize);

/// How often `t` occurs in `row`.
pub open spec fn row_count(row: Seq<Terrain>, t: Terrain) -> nat
    decreases row.len(),
{
    if row.len() == 0 {
        0
    } else {
        row_count(row.drop_last(), t) + if row.last() == t { 1nat } else { 0nat }
    }
}

/// How often `t` occurs in the whole grid.
pub open spec fn grid_count(g: Seq<Seq<Terrain>>, t: Terrain) -> nat
    decreases g.len(),
{
    if g.len() == 0 {
        0
    } else {
        grid_count(g.drop_last(), t) + row_count(g.last(), t)
    }
}

/// The grid as nested sequences.
pub open spec fn grid_of(g: &Vec<Vec<Terrain>>) -> Seq<Seq<Terrain>> {
    g@.map_values(|row: Vec<Terrain>| row@)
}

/// Whether `g` is `size` rows of `size` cells.
pub open spec fn is_square(g: Seq<Seq<Terrain>>, size: nat) -> bool {
    g.len() == size && forall|y: int| 0 <= y < size ==> (#[trigger] g[y]).len() == size
}

/// The terrain at cell `c`.
pub open spec fn at(g: Seq<Seq<Terrain>>, c: Cell) -> Terrain {
    g[c.1 as int][c.0 as int]
}

/// `g` with cell `c` set to `v`.
pub open spec fn put(g: Seq<Seq<Terrain>>, c: Cell, v: Terrain) -> Seq<Seq<Terrain>> {
    g.update(c.1 as int, g[c.1 as int].update(c.0 as int, v))
}

/// 1 if `b`, else 0.
pub open spec fn ind(b: bool) -> int {
    if b { 1 } else { 0 }
}

pub proof fn lemma_row_count_update(row: Seq<Terrain>, x: int, v: Terrain, t: Terrain)
    requires
        0 <= x < row.len(),
    ensures
        row_count(row.update(x, v), t) == row_count(row, t) - ind(row[x] == t) + ind(v == t),
    decreases row.len(),
{
    let u = row.update(x, v);
    if x == row.len() - 1 {
        assert(u.drop_last() =~= row.drop_last());
    } else {
        lemma_row_count_update(row.drop_last(), x, v, t);
        assert(u.drop_last() =~= row.drop_last().update(x, v));
    }
}

pub proof fn lemma_grid_count_put(g: Seq<Seq<Terrain>>, c: Cell, v: Terrain, t: Terrain)
    requires
        c.1 < g.len(),
        c.0 < g[c.1 as int].len(),
    ensures
        grid_count(put(g, c, v), t) == grid_count(g, t) - ind(at(g, c) == t) + ind(v == t),
    decreases g.len(),
{
    let y = c.1 as int;
    let h = put(g, c, v);
    lemma_row_count_update(g[y], c.0 as int, v, t);
    if y == g.len() - 1 {
        assert(h.drop_last() =~= g.drop_last());
    } else {
        lemma_grid_count_put(g.drop_last(), c, v, t);
        assert(h.drop_last() =~= put(g.drop_last(), c, v));
    }
}

/// A row of `n` cells all holding `v`.
pub proof fn lemma_row_count_uniform(n: nat, v: Terrain, t: Terrain)
    ensures
        row_count(Seq::new(n, |i: int| v), t) == if v == t { n } else { 0 },
    decreases n,
{
    if n > 0 {
        lemma_row_count_uniform((n - 1) as nat, v, t);
        assert(Seq::new(n, |i: int| v).drop_last() =~= Seq::new((n - 1) as nat, |i: int| v));
    }
}

/// `rows` rows of `n` cells all holding `v`.
pub proof fn lemma_grid_count_uniform(rows: nat, n: nat, v: Terrain, t: Terrain)
    ensures
        grid_count(Seq::new(rows, |i: int| Seq::new(n, |j: int| v)), t) == if v == t { rows * n } else { 0 },
    decreases rows,
{
    if rows > 0 {
        lemma_grid_count_uniform((rows - 1) as nat, n, v, t);
        lemma_row_count_uniform(n, v, t);
        assert(Seq::new(rows, |i: int| Seq::new(n, |j: int| v)).drop_last()
            =~= Seq::new((rows - 1) as nat, |i: int| Seq::new(n, |j: int| v)));
        assert((rows - 1) as nat * n + n == rows * n) by (nonlinear_arith)
            requires rows > 0;
    }
}

/// How often `t` occurs among the second components of `s`.
pub open spec fn label_count<A>(s: Seq<(A, Terrain)>, t: Terrain) -> nat
    decreases s.len(),
{
    if s.len() == 0 {
        0
    } else {
        label_count(s.drop_last(), t) + if s.last().1 == t { 1nat } else { 0nat }
    }
}

/// A square grid of `size` filled with `v`.
pub fn filled_grid(size: usize, v: Terrain) -> (r: Vec<Vec<Terrain>>)
    ensures
        grid_of(&r) == Seq::new(size as nat, |i: int| Seq::new(size as nat, |j: int| v)),
        is_square(grid_of(&r), size as nat),
{
    let mut r: Vec<Vec<Terrain>> = Vec::new();
    let mut y: usize = 0;
    while y < size
        invariant
            y <= size,
            grid_of(&r) == Seq::new(y as nat, |i: int| Seq::new(size as nat, |j: int| v)),
        decreases size - y,
    {
        let mut row: Vec<Terrain> = Vec::new();
        let mut x: usize = 0;
        while x < size
            invariant
                x <= size,
                y < size,
                row@ == Seq::new(x as nat, |j: int| v),
                grid_of(&r) == Seq::new(y as nat, |i: int| Seq::new(size as nat, |j: int| v)),
            decreases size - x,
        {
            row.push(v);
            x = x + 1;
            assert(row@ =~= Seq::new(x as nat, |j: int| v));
        }
        let ghost pre = r@;
        let ghost rv = row@;
        assert(grid_of(&r).len() == pre.len());
        assert(pre.len() == y);
        assert(rv =~= Seq::new(size as nat, |j: int| v));
        r.push(row);
        assert forall|i: int| 0 <= i < y + 1 implies #[trigger] grid_of(&r)[i] == Seq::new(size as nat, |j: int| v) by {
            if i < y {
                assert(r@[i] == pre[i]);
                assert(grid_of(&r)[i] == r@[i]@);
                assert(pre.map_values(|row: Vec<Terrain>| row@)[i] == pre[i]@);
            } else {
                assert(r@[i]@ == rv);
            }
        }
        y = y + 1;
        assert(grid_of(&r) =~= Seq::new(y as nat, |i: int| Seq::new(size as nat, |j: int| v)));
    }
    r
}

/// Sets cell `c` of `g` to `v`.
pub fn set_cell(g: &mut Vec<Vec<Terrain>>, c: Cell, v: Terrain)
    requires
        c.1 < old(g)@.len(),
        c.0 < old(g)@[c.1 as int]@.len(),
    ensures
        grid_of(final(g)) == put(grid_of(old(g)), c, v),
{
    let (x, y) = c;
    g[y].set(x, v);
    assert(grid_of(g) =~= put(grid_of(old(g)), c, v));
}

} // verus!
