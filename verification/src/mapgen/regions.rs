//! Connected regions of one terrain on a square grid: which cells a region
//! links, and how many regions there are, counted by the first cell of each
//! in reading order.

use vstd::prelude::*;
use super::terrain::Terrain;
use super::grid::{Cell, at};

verus! {

/// `a` and `b` are orthogonal neighbours.
pub open spec fn adjacent(a: Cell, b: Cell) -> bool {
    (a.1 == b.1 && (a.0 + 1 == b.0 || b.0 + 1 == a.0)) || (a.0 == b.0 && (a.1 + 1 == b.1 || b.1 + 1 == a.1))
}

/// `c` lies on the `g.len()`-square grid `g` and holds `t`.
pub open spec fn in_region(g: Seq<Seq<Terrain>>, t: Terrain, c: Cell) -> bool {
    c.0 < g.len() && c.1 < g.len() && at(g, c) == t
}

/// `p` is a walk through cells of `t`, each step to an orthogonal
/// neighbour.
pub open spec fn is_path(g: Seq<Seq<Terrain>>, t: Terrain, p: Seq<Cell>) -> bool {
    &&& p.len() > 0
    &&& forall|i: int| 0 <= i < p.len() ==> in_region(g, t, #[trigger] p[i])
    &&& forall|i: int| 0 <= i < p.len() - 1 ==> adjacent(#[trigger] p[i], p[i + 1])
}

/// A walk through cells of `t` leads from `a` to `b`.
pub open spec fn linked(g: Seq<Seq<Terrain>>, t: Terrain, a: Cell, b: Cell) -> bool {
    exists|p: Seq<Cell>| #[trigger] is_path(g, t, p) && p[0] == a && p.last() == b
}

/// `a` comes before `b` in reading order: an earlier row, or earlier in the
/// same row.
pub open spec fn before(a: Cell, b: Cell) -> bool {
    a.1 < b.1 || (a.1 == b.1 && a.0 < b.0)
}

/// `c` is the first cell, in reading order, of its region of `t`.
pub open spec fn first_of_region(g: Seq<Seq<Terrain>>, t: Terrain, c: Cell) -> bool {
    in_region(g, t, c) && forall|d: Cell| #[trigger] linked(g, t, c, d) ==> !before(d, c)
}

/// 1 if `b`, else 0.
pub open spec fn one_if(b: bool) -> nat {
    if b { 1 } else { 0 }
}

/// How many regions of `t` start among the first `x` cells of row `y`.
pub open spec fn regions_in_row(g: Seq<Seq<Terrain>>, t: Terrain, y: nat, x: nat) -> nat
    decreases x,
{
    if x == 0 {
        0
    } else {
        regions_in_row(g, t, y, (x - 1) as nat) + one_if(first_of_region(g, t, ((x - 1) as usize, y as usize)))
    }
}

/// How many regions of `t` start in the first `y` rows.
pub open spec fn regions_in_rows(g: Seq<Seq<Terrain>>, t: Terrain, y: nat) -> nat
    decreases y,
{
    if y == 0 {
        0
    } else {
        regions_in_rows(g, t, (y - 1) as nat) + regions_in_row(g, t, (y - 1) as nat, g.len())
    }
}

/// The number of 4-connected regions of `t` in the square grid `g`.
pub open spec fn region_count(g: Seq<Seq<Terrain>>, t: Terrain) -> nat {
    regions_in_rows(g, t, g.len())
}

/// A cell of `t` is linked to itself.
pub proof fn lemma_linked_refl(g: Seq<Seq<Terrain>>, t: Terrain, a: Cell)
    requires
        in_region(g, t, a),
    ensures
        linked(g, t, a, a),
{
    let p = seq![a];
    assert(is_path(g, t, p));
}

/// A walk from `a` to `b` continues to a neighbour of `b` holding `t`.
pub proof fn lemma_linked_step(g: Seq<Seq<Terrain>>, t: Terrain, a: Cell, b: Cell, c: Cell)
    requires
        linked(g, t, a, b),
        adjacent(b, c),
        in_region(g, t, c),
    ensures
        linked(g, t, a, c),
{
    let p = choose|p: Seq<Cell>| #[trigger] is_path(g, t, p) && p[0] == a && p.last() == b;
    let q = p.push(c);
    assert forall|i: int| 0 <= i < q.len() implies in_region(g, t, #[trigger] q[i]) by {
        if i < p.len() {
            assert(q[i] == p[i]);
        }
    }
    assert forall|i: int| 0 <= i < q.len() - 1 implies adjacent(#[trigger] q[i], q[i + 1]) by {
        if i < p.len() - 1 {
            assert(q[i] == p[i] && q[i + 1] == p[i + 1]);
        } else {
            assert(q[i] == b && q[i + 1] == c);
        }
    }
    assert(is_path(g, t, q));
    assert(q[0] == a && q.last() == c);
}

/// Walks run both ways.
pub proof fn lemma_linked_symmetric(g: Seq<Seq<Terrain>>, t: Terrain, a: Cell, b: Cell)
    requires
        linked(g, t, a, b),
    ensures
        linked(g, t, b, a),
{
    let p = choose|p: Seq<Cell>| #[trigger] is_path(g, t, p) && p[0] == a && p.last() == b;
    let n = p.len() as int;
    let q = Seq::new(p.len(), |i: int| p[n - 1 - i]);
    assert forall|i: int| 0 <= i < q.len() implies in_region(g, t, #[trigger] q[i]) by {
        assert(q[i] == p[n - 1 - i]);
    }
    assert forall|i: int| 0 <= i < q.len() - 1 implies adjacent(#[trigger] q[i], q[i + 1]) by {
        assert(q[i] == p[n - 1 - i] && q[i + 1] == p[n - 2 - i]);
        assert(adjacent(p[n - 2 - i], p[n - 1 - i]));
    }
    assert(is_path(g, t, q));
    assert(q[0] == b && q.last() == a);
}

/// The flag of cell `c`.
pub open spec fn flag(s: Seq<Seq<bool>>, c: Cell) -> bool {
    s[c.1 as int][c.0 as int]
}

/// Every flagged neighbour of a flagged cell `c` that holds `t` is flagged:
/// the flags are closed under steps through `t` at `c`.
pub open spec fn closed_at(g: Seq<Seq<Terrain>>, t: Terrain, s: Seq<Seq<bool>>, c: Cell) -> bool {
    forall|d: Cell| #[trigger] adjacent(c, d) && in_region(g, t, d) ==> flag(s, d)
}

/// Flags closed under steps through `t` cover every cell linked to a
/// flagged one.
pub proof fn lemma_closed_covers(g: Seq<Seq<Terrain>>, t: Terrain, s: Seq<Seq<bool>>, a: Cell, b: Cell)
    requires
        forall|c: Cell| in_region(g, t, c) && #[trigger] flag(s, c) ==> closed_at(g, t, s, c),
        flag(s, a),
        linked(g, t, a, b),
    ensures
        flag(s, b),
{
    let p = choose|p: Seq<Cell>| #[trigger] is_path(g, t, p) && p[0] == a && p.last() == b;
    lemma_closed_covers_path(g, t, s, p, 0);
}

proof fn lemma_closed_covers_path(g: Seq<Seq<Terrain>>, t: Terrain, s: Seq<Seq<bool>>, p: Seq<Cell>, i: int)
    requires
        forall|c: Cell| in_region(g, t, c) && #[trigger] flag(s, c) ==> closed_at(g, t, s, c),
        is_path(g, t, p),
        0 <= i < p.len(),
        flag(s, p[i]),
    ensures
        flag(s, p.last()),
    decreases p.len() - i,
{
    if i < p.len() - 1 {
        assert(in_region(g, t, p[i]));
        assert(closed_at(g, t, s, p[i]));
        assert(adjacent(p[i], p[i + 1]));
        assert(in_region(g, t, p[i + 1]));
        lemma_closed_covers_path(g, t, s, p, i + 1);
    }
}

/// Both ends of a walk hold `t` on the grid.
pub proof fn lemma_linked_ends(g: Seq<Seq<Terrain>>, t: Terrain, a: Cell, b: Cell)
    requires
        linked(g, t, a, b),
    ensures
        in_region(g, t, a),
        in_region(g, t, b),
{
    let p = choose|p: Seq<Cell>| #[trigger] is_path(g, t, p) && p[0] == a && p.last() == b;
    assert(in_region(g, t, p[0]));
    assert(in_region(g, t, p[p.len() - 1]));
}

} // verus!
