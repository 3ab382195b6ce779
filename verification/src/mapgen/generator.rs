//! Generation: quotas, scatter, one block per terrain, then melting.
//!
//! 1. **Quotas**: the cluster shares become exact per-terrain tile counts over
//!    the cells left for clustering (largest-remainder rounding, so the counts
//!    always sum exactly).
//! 2. **Scatter**: Cave/Ruins cells are reserved uniformly at random; they
//!    never take part in clustering.
//! 3. **Layout**: recursive rectilinear bisection slices the clustering cells
//!    into one contiguous block per terrain.
//! 4. **Melt**: pairs of clustering cells are swapped, always when the swap
//!    doesn't worsen clustering and otherwise with a flat chance of
//!    `(1 - affinity)^2`. Swaps never change counts, so the composition stays
//!    exact.

use vstd::prelude::*;
use super::terrain::{Terrain, clustering, scattered, terrain_label};
use crate::viewmodel::events::{decimal, push_decimal};
use super::regions::{adjacent, in_region, linked, before, first_of_region, one_if, regions_in_row, regions_in_rows,
    region_count, flag, closed_at, lemma_linked_refl, lemma_linked_step, lemma_linked_symmetric, lemma_linked_ends,
    lemma_closed_covers};
use super::grid::{Cell, row_count, grid_count, grid_of, is_square, at, ind,
    lemma_grid_count_put, lemma_grid_count_uniform, filled_grid, set_cell, put};
use crate::game::random::{coin_flip_in, roll_below_in, shuffle_in};
use rand::rngs::StdRng;
use crate::seqs::{copy_vec, first_where, lemma_first_where_at, lemma_first_where_none};

verus! {

/// What every set of cluster shares adds up to: a hundred percent, counted in
/// ninths of a percent so that thirds and ninths of the map are exact.
pub const SHARE_WHOLE: u32 = 900;

/// The full affinity, in thousandths: one contiguous block per terrain.
pub const AFFINITY_WHOLE: u32 = 1000;

/// Melt iterations, as a multiple of the clustering-cell count.
pub const MELT_SWEEPS: usize = 80;

/// The largest edge length the generator takes.
pub const MAX_SIZE: usize = 65535;

/// What to generate.
pub struct Spec {
    /// Map edge length. Must be odd and at least 5.
    pub size: usize,
    /// Clustering terrain and its share, in ninths of a percent. Must sum to
    /// [`SHARE_WHOLE`].
    pub clusters: Vec<(Terrain, u32)>,
    /// Scattered terrain and its absolute tile count.
    pub scatter: Vec<(Terrain, u32)>,
    /// In thousandths: `0` fully random .. `1000` one contiguous blob per
    /// clustering terrain.
    pub affinity: u32,
    /// Whether the centre cell is a fixed Village that takes no part.
    pub centre_village: bool,
}

#[derive(Debug, Clone, Copy, PartialEq, Eq, Structural)]
pub enum GenError {
    EmptyClusters,
    /// The cluster shares don't add up to [`SHARE_WHOLE`]; holds their sum.
    PercentSum(u64),
    EvenSize(usize),
    TooSmall(usize),
    WrongCategory(Terrain),
    DuplicateTerrain(Terrain),
    ScatterTooLarge { scatter: u64, capacity: u64 },
    CannotPlaceClusters,
}

/// The message shown for `e`.
pub open spec fn gen_error_text(e: GenError) -> Seq<char> {
    match e {
        GenError::EmptyClusters => "at least one --terrain is required"@,
        GenError::PercentSum(sum) =>
            "cluster shares must sum to "@ + decimal(SHARE_WHOLE as nat) + " (got "@ + decimal(sum as nat) + ")"@,
        GenError::EvenSize(n) => "--size must be odd (got "@ + decimal(n as nat) + ")"@,
        GenError::TooSmall(n) => "--size must be at least 5 (got "@ + decimal(n as nat) + ")"@,
        GenError::WrongCategory(t) =>
            terrain_label(t) + " cannot be used here (clustering terrain is Meadow/Forest/Deadland, scatter is Cave/Ruins)"@,
        GenError::DuplicateTerrain(t) => terrain_label(t) + " is listed more than once"@,
        GenError::ScatterTooLarge { scatter, capacity } =>
            "scatter total "@ + decimal(scatter as nat) + " leaves no room for clusters (capacity "@
                + decimal(capacity as nat) + ")"@,
        GenError::CannotPlaceClusters =>
            "could not grow contiguous clusters; try a lower --affinity, fewer terrains, less --scatter, or a larger --size"@,
    }
}

impl GenError {
    /// The message shown for this error.
    pub fn to_string(&self) -> (r: String)
        ensures
            r@ == gen_error_text(*self),
    {
        match *self {
            GenError::EmptyClusters => String::from_str("at least one --terrain is required"),
            GenError::PercentSum(sum) => {
                let mut s = String::from_str("cluster shares must sum to ");
                push_decimal(&mut s, SHARE_WHOLE as u64);
                s.append(" (got ");
                push_decimal(&mut s, sum);
                s.append(")");
                s
            },
            GenError::EvenSize(n) => {
                let mut s = String::from_str("--size must be odd (got ");
                push_decimal(&mut s, n as u64);
                s.append(")");
                s
            },
            GenError::TooSmall(n) => {
                let mut s = String::from_str("--size must be at least 5 (got ");
                push_decimal(&mut s, n as u64);
                s.append(")");
                s
            },
            GenError::WrongCategory(t) => {
                let mut s = t.to_string();
                s.append(" cannot be used here (clustering terrain is Meadow/Forest/Deadland, scatter is Cave/Ruins)");
                s
            },
            GenError::DuplicateTerrain(t) => {
                let mut s = t.to_string();
                s.append(" is listed more than once");
                s
            },
            GenError::ScatterTooLarge { scatter, capacity } => {
                let mut s = String::from_str("scatter total ");
                push_decimal(&mut s, scatter);
                s.append(" leaves no room for clusters (capacity ");
                push_decimal(&mut s, capacity);
                s.append(")");
                s
            },
            GenError::CannotPlaceClusters => String::from_str(
                "could not grow contiguous clusters; try a lower --affinity, fewer terrains, less --scatter, or a larger --size",
            ),
        }
    }
}

/// The sum of the second components.
pub open spec fn amount_total(s: Seq<(Terrain, u32)>) -> nat
    decreases s.len(),
{
    if s.len() == 0 {
        0
    } else {
        amount_total(s.drop_last()) + s.last().1 as nat
    }
}

/// The terrains of a list of `(terrain, amount)`.
pub open spec fn terrains_of<A>(s: Seq<(Terrain, A)>) -> Seq<Terrain> {
    s.map_values(|e: (Terrain, A)| e.0)
}

/// What is wrong with entry `i` of a cluster (`clusters`) or scatter list:
/// the wrong kind of terrain, or a terrain listed earlier.
pub open spec fn entry_error(s: Seq<(Terrain, u32)>, clusters: bool, i: int) -> Option<GenError> {
    let t = s[i].0;
    if !(if clusters { clustering(t) } else { scattered(t) }) {
        Some(GenError::WrongCategory(t))
    } else if terrains_of(s.subrange(0, i)).contains(t) {
        Some(GenError::DuplicateTerrain(t))
    } else {
        None
    }
}

/// The first entry error from entry `i` on.
pub open spec fn list_error(s: Seq<(Terrain, u32)>, clusters: bool, i: int) -> Option<GenError>
    decreases s.len() - i,
{
    if i < 0 || i >= s.len() {
        None
    } else {
        match entry_error(s, clusters, i) {
            Some(e) => Some(e),
            None => list_error(s, clusters, i + 1),
        }
    }
}

/// The cells left for scatter and clustering.
pub open spec fn capacity(size: nat, centre_village: bool) -> nat {
    (size * size - if centre_village { 1int } else { 0 }) as nat
}

impl Spec {
    /// What [`validate`](Self::validate) reports, checked in this order:
    /// no clusters, each cluster then each scatter entry (kind, repeats), the
    /// share sum, the size, and room for the scatter.
    pub open spec fn spec_check(&self) -> Result<(), GenError> {
        let c = self.clusters@;
        let s = self.scatter@;
        if c.len() == 0 {
            Err(GenError::EmptyClusters)
        } else if list_error(c, true, 0).is_some() {
            Err(list_error(c, true, 0).unwrap())
        } else if list_error(s, false, 0).is_some() {
            Err(list_error(s, false, 0).unwrap())
        } else if amount_total(c) != SHARE_WHOLE {
            Err(GenError::PercentSum(amount_total(c) as u64))
        } else if self.size < 5 {
            Err(GenError::TooSmall(self.size))
        } else if self.size % 2 == 0 {
            Err(GenError::EvenSize(self.size))
        } else if amount_total(s) >= capacity(self.size as nat, self.centre_village) {
            Err(GenError::ScatterTooLarge {
                scatter: amount_total(s) as u64,
                capacity: capacity(self.size as nat, self.centre_village) as u64,
            })
        } else {
            Ok(())
        }
    }

    /// The spec's sizes are within what the generator takes.
    pub open spec fn within_limits(&self) -> bool {
        &&& self.size <= MAX_SIZE
        &&& self.clusters@.len() <= u32::MAX
        &&& self.scatter@.len() <= u32::MAX
    }

    /// Checks the spec: see [`spec_check`](Self::spec_check) for the order.
    pub fn validate(&self) -> (r: Result<(), GenError>)
        requires
            self.within_limits(),
        ensures
            r == self.spec_check(),
    {
        if self.clusters.len() == 0 {
            return Err(GenError::EmptyClusters);
        }
        if let Some(e) = first_list_error(&self.clusters, true) {
            return Err(e);
        }
        if let Some(e) = first_list_error(&self.scatter, false) {
            return Err(e);
        }
        let sum = total_of(&self.clusters);
        if sum != SHARE_WHOLE as u64 {
            return Err(GenError::PercentSum(sum));
        }
        if self.size < 5 {
            return Err(GenError::TooSmall(self.size));
        }
        if self.size % 2 == 0 {
            return Err(GenError::EvenSize(self.size));
        }
        proof {
            let n = self.size as int;
            assert(n * n <= 65535 * 65535 && n * n >= 25) by (nonlinear_arith)
                requires 5 <= n <= 65535;
        }
        let cap: u64 = if self.centre_village {
            (self.size as u64) * (self.size as u64) - 1
        } else {
            (self.size as u64) * (self.size as u64)
        };
        let scatter = total_of(&self.scatter);
        if scatter >= cap {
            return Err(GenError::ScatterTooLarge { scatter, capacity: cap });
        }
        Ok(())
    }
}

/// The sum of the amounts of `s`.
pub fn total_of(s: &Vec<(Terrain, u32)>) -> (r: u64)
    requires
        s@.len() <= u32::MAX,
    ensures
        r == amount_total(s@),
{
    let mut r: u64 = 0;
    let mut i: usize = 0;
    while i < s.len()
        invariant
            i <= s@.len(),
            s@.len() <= u32::MAX,
            r == amount_total(s@.subrange(0, i as int)),
            r <= i * (u32::MAX as int),
        decreases s.len() - i,
    {
        assert(s@.subrange(0, i as int + 1).drop_last() =~= s@.subrange(0, i as int));
        assert((i + 1) * (u32::MAX as int) == i * (u32::MAX as int) + u32::MAX) by (nonlinear_arith);
        assert(i * (u32::MAX as int) <= 0xffff_ffff * 0xffff_ffff) by (nonlinear_arith)
            requires i <= 0xffff_ffff;
        r = r + s[i].1 as u64;
        i = i + 1;
    }
    assert(s@.subrange(0, s@.len() as int) =~= s@);
    r
}

fn contains_terrain(s: &Vec<(Terrain, u32)>, upto: usize, t: Terrain) -> (r: bool)
    requires
        upto <= s@.len(),
    ensures
        r == terrains_of(s@.subrange(0, upto as int)).contains(t),
{
    let mut i: usize = 0;
    while i < upto
        invariant
            i <= upto <= s@.len(),
            forall|j: int| 0 <= j < i ==> s@[j].0 != t,
        decreases upto - i,
    {
        if s[i].0 == t {
            assert(terrains_of(s@.subrange(0, upto as int))[i as int] == t);
            return true;
        }
        i = i + 1;
    }
    assert(!terrains_of(s@.subrange(0, upto as int)).contains(t)) by {
        if terrains_of(s@.subrange(0, upto as int)).contains(t) {
            let j = choose|j: int| 0 <= j < upto && terrains_of(s@.subrange(0, upto as int))[j] == t;
            assert(s@[j].0 == t);
        }
    }
    false
}

fn first_list_error(s: &Vec<(Terrain, u32)>, clusters: bool) -> (r: Option<GenError>)
    ensures
        r == list_error(s@, clusters, 0),
{
    let mut i: usize = 0;
    while i < s.len()
        invariant
            i <= s@.len(),
            list_error(s@, clusters, 0) == list_error(s@, clusters, i as int),
        decreases s.len() - i,
    {
        let t = s[i].0;
        let ok_kind = if clusters { t.is_clustering() } else { t.is_scatter() };
        if !ok_kind {
            return Some(GenError::WrongCategory(t));
        }
        if contains_terrain(s, i, t) {
            return Some(GenError::DuplicateTerrain(t));
        }
        i = i + 1;
    }
    None
}


/// The whole part of a share `w` of `n` cells.
pub open spec fn quota_floor(w: u32, n: nat) -> nat {
    (w as nat * n) / (SHARE_WHOLE as nat)
}

/// The fractional part of a share `w` of `n` cells, in ninths of a percent.
pub open spec fn quota_rem(w: u32, n: nat) -> nat {
    (w as nat * n) % (SHARE_WHOLE as nat)
}

/// The whole parts of every share, added up.
pub open spec fn floor_total(c: Seq<(Terrain, u32)>, n: nat) -> nat
    decreases c.len(),
{
    if c.len() == 0 {
        0
    } else {
        floor_total(c.drop_last(), n) + quota_floor(c.last().1, n)
    }
}

/// The fractional parts of every share, added up.
pub open spec fn rem_total(c: Seq<(Terrain, u32)>, n: nat) -> nat
    decreases c.len(),
{
    if c.len() == 0 {
        0
    } else {
        rem_total(c.drop_last(), n) + quota_rem(c.last().1, n)
    }
}

/// Row `i`'s remainder wins over row `j`'s: it is larger, or equal and row
/// `i` is listed first.
pub open spec fn rem_beats(c: Seq<(Terrain, u32)>, n: nat, i: int, j: int) -> bool {
    quota_rem(c[i].1, n) > quota_rem(c[j].1, n)
        || (quota_rem(c[i].1, n) == quota_rem(c[j].1, n) && i < j)
}

/// The sum of the counts of `q`.
pub open spec fn quota_total(q: Seq<(Terrain, usize)>) -> nat
    decreases q.len(),
{
    if q.len() == 0 {
        0
    } else {
        quota_total(q.drop_last()) + q.last().1 as nat
    }
}

/// `q` is the largest-remainder rounding of the shares `c` of `n` cells:
/// every terrain gets the whole part of its share, and the cells left over
/// go one each to the rows with the largest fractional parts (the earlier
/// row on a tie), so the counts add up to exactly `n`.
pub open spec fn largest_remainder(c: Seq<(Terrain, u32)>, n: nat, q: Seq<(Terrain, usize)>) -> bool {
    &&& q.len() == c.len()
    &&& forall|i: int| 0 <= i < q.len() ==> (#[trigger] q[i]).0 == c[i].0
        && (q[i].1 == quota_floor(c[i].1, n) || q[i].1 == quota_floor(c[i].1, n) + 1)
    &&& quota_total(q) == n
    &&& forall|i: int, j: int| 0 <= i < q.len() && 0 <= j < q.len()
        && (#[trigger] q[i]).1 == quota_floor(c[i].1, n) + 1
        && (#[trigger] q[j]).1 == quota_floor(c[j].1, n)
        ==> rem_beats(c, n, i, j)
}

proof fn lemma_parts(c: Seq<(Terrain, u32)>, n: nat)
    ensures
        floor_total(c, n) * 900 + rem_total(c, n) == amount_total(c) * n,
        rem_total(c, n) <= 899 * c.len(),
    decreases c.len(),
{
    if c.len() > 0 {
        lemma_parts(c.drop_last(), n);
        let w = c.last().1 as nat;
        let a = amount_total(c.drop_last());
        let f = floor_total(c.drop_last(), n);
        let rr = rem_total(c.drop_last(), n);
        assert(quota_floor(c.last().1, n) == (w * n) / 900);
        assert(quota_rem(c.last().1, n) == (w * n) % 900);
        assert((w * n) / 900 * 900 + (w * n) % 900 == w * n) by (nonlinear_arith);
        assert((a + w) * n == a * n + w * n) by (nonlinear_arith);
        assert((w * n) % 900 < 900) by (nonlinear_arith);
        assert(floor_total(c, n) == f + (w * n) / 900);
        assert(rem_total(c, n) == rr + (w * n) % 900);
        assert(amount_total(c) == a + w);
        assert((f + (w * n) / 900) * 900 == f * 900 + (w * n) / 900 * 900) by (nonlinear_arith);
        assert(floor_total(c, n) * 900 == f * 900 + (w * n) / 900 * 900);
        assert(amount_total(c) * n == a * n + w * n);
    } else {
        assert(amount_total(c) * n == 0) by (nonlinear_arith)
            requires amount_total(c) == 0;
    }
}

/// The number of `true`s in `s`.
pub open spec fn count_true(s: Seq<bool>) -> nat
    decreases s.len(),
{
    if s.len() == 0 {
        0
    } else {
        count_true(s.drop_last()) + if s.last() { 1nat } else { 0nat }
    }
}

proof fn lemma_count_true_update(s: Seq<bool>, i: int)
    requires
        0 <= i < s.len(),
        !s[i],
    ensures
        count_true(s.update(i, true)) == count_true(s) + 1,
    decreases s.len(),
{
    if i < s.len() - 1 {
        lemma_count_true_update(s.drop_last(), i);
        assert(s.update(i, true).drop_last() =~= s.drop_last().update(i, true));
    } else {
        assert(s.update(i, true).drop_last() =~= s.drop_last());
    }
}

proof fn lemma_count_true_bound(s: Seq<bool>)
    ensures
        count_true(s) <= s.len(),
        count_true(s) == s.len() ==> forall|i: int| 0 <= i < s.len() ==> s[i],
    decreases s.len(),
{
    if s.len() > 0 {
        lemma_count_true_bound(s.drop_last());
        assert forall|i: int| 0 <= i < s.len() && count_true(s) == s.len() implies s[i] by {
            if i < s.len() - 1 {
                assert(s.drop_last()[i] == s[i]);
            }
        }
    }
}

proof fn lemma_quota_total(c: Seq<(Terrain, u32)>, n: nat, picked: Seq<bool>, q: Seq<(Terrain, usize)>)
    requires
        picked.len() == c.len(),
        q.len() == c.len(),
        forall|i: int| 0 <= i < q.len() ==> (#[trigger] q[i]).1 == quota_floor(c[i].1, n) + if picked[i] { 1nat } else { 0nat },
    ensures
        quota_total(q) == floor_total(c, n) + count_true(picked),
    decreases c.len(),
{
    if c.len() > 0 {
        let k = c.len() - 1;
        assert forall|i: int| 0 <= i < q.drop_last().len() implies (#[trigger] q.drop_last()[i]).1
            == quota_floor(c.drop_last()[i].1, n) + if picked.drop_last()[i] { 1nat } else { 0nat } by {
            assert(q.drop_last()[i] == q[i]);
        }
        lemma_quota_total(c.drop_last(), n, picked.drop_last(), q.drop_last());
        assert(q[k].1 == quota_floor(c[k].1, n) + if picked[k] { 1nat } else { 0nat });
    }
}

/// Largest-remainder rounding of the shares `clusters` of `n` cells: see
/// [`largest_remainder`]. The result always sums to exactly `n`.
pub fn cluster_quotas(clusters: &Vec<(Terrain, u32)>, n: usize) -> (r: Vec<(Terrain, usize)>)
    requires
        amount_total(clusters@) == SHARE_WHOLE,
        n < u32::MAX,
    ensures
        largest_remainder(clusters@, n as nat, r@),
{
    let len = clusters.len();
    let ghost c = clusters@;
    let mut floors: Vec<usize> = Vec::new();
    let mut rems: Vec<u64> = Vec::new();
    let mut assigned: u64 = 0;
    let mut i: usize = 0;
    while i < len
        invariant
            len == c.len(),
            c == clusters@,
            i <= len,
            n <= u32::MAX,
            floors@.len() == i,
            rems@.len() == i,
            forall|k: int| 0 <= k < i ==> #[trigger] floors@[k] == quota_floor(c[k].1, n as nat),
            forall|k: int| 0 <= k < i ==> #[trigger] rems@[k] == quota_rem(c[k].1, n as nat),
            assigned == floor_total(c.subrange(0, i as int), n as nat),
            assigned <= n,
            amount_total(c) == SHARE_WHOLE,
        decreases len - i,
    {
        let w = clusters[i].1;
        proof {
            assert(c.subrange(0, i as int + 1).drop_last() =~= c.subrange(0, i as int));
            lemma_parts(c.subrange(0, i as int + 1), n as nat);
            lemma_share_prefix(c, i as int + 1);
            assert(amount_total(c.subrange(0, i as int + 1)) * n <= 900 * n) by (nonlinear_arith)
                requires amount_total(c.subrange(0, i as int + 1)) <= 900;
            assert(w as int * n as int <= 0xffff_ffffu64 as int * 0xffff_ffffu64 as int) by (nonlinear_arith)
                requires w <= 0xffff_ffffu32, n <= 0xffff_ffffu32;
        }
        let p: u64 = w as u64 * n as u64;
        floors.push((p / 900) as usize);
        rems.push(p % 900);
        assigned = assigned + p / 900;
        i = i + 1;
    }
    assert(c.subrange(0, len as int) =~= c);
    proof {
        lemma_parts(c, n as nat);
    }
    let extra: usize = (n as u64 - assigned) as usize;
    assert(extra < len || len == 0);

    let mut picked: Vec<bool> = Vec::new();
    let mut j: usize = 0;
    while j < len
        invariant
            j <= len,
            picked@.len() == j,
            forall|k: int| 0 <= k < j ==> !(#[trigger] picked@[k]),
        decreases len - j,
    {
        picked.push(false);
        j = j + 1;
    }
    proof {
        assert(count_true(picked@) == 0) by {
            lemma_no_true(picked@);
        }
    }

    let mut m: usize = 0;
    while m < extra
        invariant
            len == c.len(),
            c == clusters@,
            extra < len,
            m <= extra,
            picked@.len() == len,
            rems@.len() == len,
            forall|k: int| 0 <= k < len ==> #[trigger] rems@[k] == quota_rem(c[k].1, n as nat),
            count_true(picked@) == m,
            forall|a: int, b: int| 0 <= a < len && 0 <= b < len && #[trigger] picked@[a] && !#[trigger] picked@[b]
                ==> rem_beats(c, n as nat, a, b),
        decreases extra - m,
    {
        proof {
            lemma_count_true_bound(picked@);
        }
        let mut best: usize = len;
        let mut k: usize = 0;
        while k < len
            invariant
                len == c.len(),
                picked@.len() == len,
                rems@.len() == len,
                forall|x: int| 0 <= x < len ==> #[trigger] rems@[x] == quota_rem(c[x].1, n as nat),
                k <= len,
                best == len || (best < k && !picked@[best as int]),
                best == len ==> forall|x: int| 0 <= x < k ==> #[trigger] picked@[x],
                best < len ==> forall|x: int| 0 <= x < k && !#[trigger] picked@[x] && x != best
                    ==> rem_beats(c, n as nat, best as int, x),
            decreases len - k,
        {
            if !picked[k] && (best == len || rems[k] > rems[best]) {
                best = k;
            }
            k = k + 1;
        }
        assert(best < len) by {
            if best == len {
                assert(count_true(picked@) == picked@.len()) by {
                    lemma_all_true(picked@);
                }
            }
        }
        let ghost before = picked@;
        proof {
            lemma_count_true_update(before, best as int);
        }
        picked.set(best, true);
        proof {
            assert forall|a: int, b: int| 0 <= a < len && 0 <= b < len && #[trigger] picked@[a] && !#[trigger] picked@[b]
                implies rem_beats(c, n as nat, a, b) by {
                assert(!before[b]);
                assert(b != best);
                if a != best {
                    assert(before[a]);
                }
            }
        }
        m = m + 1;
    }

    let mut r: Vec<(Terrain, usize)> = Vec::new();
    let mut i: usize = 0;
    while i < len
        invariant
            len == c.len(),
            c == clusters@,
            i <= len,
            extra < len || len == 0,
            floors@.len() == len,
            picked@.len() == len,
            forall|k: int| 0 <= k < len ==> #[trigger] floors@[k] == quota_floor(c[k].1, n as nat),
            floors@.len() == len,
            r@.len() == i,
            forall|k: int| 0 <= k < i ==> (#[trigger] r@[k]).0 == c[k].0
                && r@[k].1 == quota_floor(c[k].1, n as nat) + if picked@[k] { 1nat } else { 0nat },
            n as int == assigned + extra,
            assigned == floor_total(c, n as nat),
            amount_total(c) == SHARE_WHOLE,
            n < u32::MAX,
        decreases len - i,
    {
        proof {
            lemma_floor_le(c, n as nat, i as int);
            assert(floors@[i as int] <= n);
        }
        let bump: usize = if picked[i] { 1 } else { 0 };
        r.push((clusters[i].0, floors[i] + bump));
        i = i + 1;
    }
    proof {
        lemma_quota_total(c, n as nat, picked@, r@);
    }
    r
}

proof fn lemma_no_true(s: Seq<bool>)
    requires
        forall|k: int| 0 <= k < s.len() ==> !#[trigger] s[k],
    ensures
        count_true(s) == 0,
    decreases s.len(),
{
    if s.len() > 0 {
        assert forall|k: int| 0 <= k < s.drop_last().len() implies !#[trigger] s.drop_last()[k] by {
            assert(s.drop_last()[k] == s[k]);
        }
        lemma_no_true(s.drop_last());
    }
}

proof fn lemma_all_true(s: Seq<bool>)
    requires
        forall|k: int| 0 <= k < s.len() ==> #[trigger] s[k],
    ensures
        count_true(s) == s.len(),
    decreases s.len(),
{
    if s.len() > 0 {
        assert forall|k: int| 0 <= k < s.drop_last().len() implies #[trigger] s.drop_last()[k] by {
            assert(s.drop_last()[k] == s[k]);
        }
        lemma_all_true(s.drop_last());
    }
}

proof fn lemma_share_prefix(c: Seq<(Terrain, u32)>, k: int)
    requires
        0 <= k <= c.len(),
    ensures
        amount_total(c.subrange(0, k)) <= amount_total(c),
    decreases c.len() - k,
{
    if k < c.len() {
        lemma_share_prefix(c, k + 1);
        assert(c.subrange(0, k + 1).drop_last() =~= c.subrange(0, k));
    } else {
        assert(c.subrange(0, k) =~= c);
    }
}

proof fn lemma_floor_le(c: Seq<(Terrain, u32)>, n: nat, i: int)
    requires
        0 <= i < c.len(),
        amount_total(c) == SHARE_WHOLE,
    ensures
        quota_floor(c[i].1, n) <= n,
{
    lemma_share_item(c, i);
    let w = c[i].1 as nat;
    assert((w * n) / 900 <= n) by (nonlinear_arith)
        requires w <= 900;
}

proof fn lemma_share_item(c: Seq<(Terrain, u32)>, i: int)
    requires
        0 <= i < c.len(),
    ensures
        c[i].1 <= amount_total(c),
    decreases c.len(),
{
    if i < c.len() - 1 {
        lemma_share_item(c.drop_last(), i);
    }
}


/// `(x, y)` order: by column, then row.
pub open spec fn cell_le_xy(a: Cell, b: Cell) -> bool {
    a.0 < b.0 || (a.0 == b.0 && a.1 <= b.1)
}

/// `(y, x)` order: by row, then column.
pub open spec fn cell_le_yx(a: Cell, b: Cell) -> bool {
    a.1 < b.1 || (a.1 == b.1 && a.0 <= b.0)
}

/// Calls `slice::sort_unstable` on the cells, which std documents to sort
/// the slice ascending (tuples compare field by field): the cells come out
/// in `(x, y)` order, each as often as before.
#[verifier::external_body]
fn sort_by_column(v: &mut Vec<Cell>)
    ensures
        final(v)@.len() == old(v)@.len(),
        final(v)@.to_multiset() == old(v)@.to_multiset(),
        forall|i: int, j: int| 0 <= i < j < final(v)@.len() ==> cell_le_xy(final(v)@[i], final(v)@[j]),
{
    v.sort_unstable();
}

/// Calls `slice::sort_unstable_by_key` with the key `(y, x)`: the cells come
/// out in `(y, x)` order, each as often as before.
#[verifier::external_body]
fn sort_by_row(v: &mut Vec<Cell>)
    ensures
        final(v)@.len() == old(v)@.len(),
        final(v)@.to_multiset() == old(v)@.to_multiset(),
        forall|i: int, j: int| 0 <= i < j < final(v)@.len() ==> cell_le_yx(final(v)@[i], final(v)@[j]),
{
    v.sort_unstable_by_key(|c| (c.1, c.0));
}

/// The cells of `v` in the opposite order.
fn reversed(v: Vec<Cell>) -> (r: Vec<Cell>)
    ensures
        r@ == v@.reverse(),
        r@.to_multiset() == v@.to_multiset(),
{
    let mut r: Vec<Cell> = Vec::new();
    let n = v.len();
    let mut i: usize = 0;
    while i < n
        invariant
            n == v@.len(),
            i <= n,
            r@ == v@.reverse().subrange(0, i as int),
        decreases n - i,
    {
        r.push(v[n - 1 - i]);
        i = i + 1;
        assert(r@ =~= v@.reverse().subrange(0, i as int));
    }
    assert(r@ =~= v@.reverse());
    proof {
        v@.lemma_reverse_to_multiset();
    }
    r
}

proof fn lemma_quota_total_split(q: Seq<(Terrain, usize)>, lo: int, mid: int, hi: int)
    requires
        0 <= lo <= mid <= hi <= q.len(),
    ensures
        quota_total(q.subrange(lo, hi)) == quota_total(q.subrange(lo, mid)) + quota_total(q.subrange(mid, hi)),
    decreases hi - mid,
{
    if hi > mid {
        lemma_quota_total_split(q, lo, mid, hi - 1);
        assert(q.subrange(lo, hi).drop_last() =~= q.subrange(lo, hi - 1));
        assert(q.subrange(mid, hi).drop_last() =~= q.subrange(mid, hi - 1));
    } else {
        assert(q.subrange(mid, hi) =~= Seq::<(Terrain, usize)>::empty());
    }
}

/// Where a group with quotas `q[lo..hi]` and `total` cells is cut, looking
/// from quota `i` on: after the first quota at which the running total
/// reaches half the group, or before the last quota if none does.
pub open spec fn split_from(q: Seq<(Terrain, usize)>, lo: int, i: int, hi: int, total: int) -> int
    decreases hi - 1 - i,
{
    if i >= hi - 1 {
        hi - 1
    } else if 2 * quota_total(q.subrange(lo, i + 1)) >= total {
        i + 1
    } else {
        split_from(q, lo, i + 1, hi, total)
    }
}

pub proof fn lemma_split_range(q: Seq<(Terrain, usize)>, lo: int, i: int, hi: int, total: int)
    requires
        lo <= i,
        hi - lo >= 2,
    ensures
        lo < split_from(q, lo, i, hi, total) <= hi - 1,
    decreases hi - 1 - i,
{
    if i < hi - 1 && 2 * quota_total(q.subrange(lo, i + 1)) < total {
        lemma_split_range(q, lo, i + 1, hi, total);
    }
}

/// Every cell of `a` comes before every cell of `b` in `(x, y)` order.
pub open spec fn all_before_xy(a: Seq<Cell>, b: Seq<Cell>) -> bool {
    forall|x: Cell, y: Cell| #![trigger a.contains(x), b.contains(y)] a.contains(x) && b.contains(y) ==> cell_le_xy(x, y)
}

/// Every cell of `a` comes before every cell of `b` in `(y, x)` order.
pub open spec fn all_before_yx(a: Seq<Cell>, b: Seq<Cell>) -> bool {
    forall|x: Cell, y: Cell| #![trigger a.contains(x), b.contains(y)] a.contains(x) && b.contains(y) ==> cell_le_yx(x, y)
}

/// `a` and `b` lie on either side of one cut: a column-major or row-major
/// line, either way round.
pub open spec fn cut_apart(a: Seq<Cell>, b: Seq<Cell>) -> bool {
    ||| all_before_xy(a, b)
    ||| all_before_xy(b, a)
    ||| all_before_yx(a, b)
    ||| all_before_yx(b, a)
}

/// `r` is laid out by recursive cuts for the quotas `q[lo..hi]`: it splits
/// where [`split_from`] says, after as many cells as the quotas before the
/// split hold, the two parts lie on either side of one cut, and each part is
/// laid out the same way for its quotas.
pub open spec fn guillotine(r: Seq<Cell>, q: Seq<(Terrain, usize)>, lo: int, hi: int) -> bool
    decreases hi - lo,
{
    if hi - lo <= 1 {
        true
    } else {
        let s = split_from(q, lo, lo, hi, r.len() as int);
        let k = quota_total(q.subrange(lo, s)) as int;
        proof {
            lemma_split_range(q, lo, lo, hi, r.len() as int);
        }
        &&& cut_apart(r.take(k), r.skip(k))
        &&& guillotine(r.take(k), q, lo, s)
        &&& guillotine(r.skip(k), q, s, hi)
    }
}

/// Cuts survive reordering either side.
proof fn lemma_cut_apart_perm(a: Seq<Cell>, b: Seq<Cell>, a2: Seq<Cell>, b2: Seq<Cell>)
    requires
        cut_apart(a, b),
        a2.to_multiset() == a.to_multiset(),
        b2.to_multiset() == b.to_multiset(),
    ensures
        cut_apart(a2, b2),
{
    a.to_multiset_ensures();
    a2.to_multiset_ensures();
    b.to_multiset_ensures();
    b2.to_multiset_ensures();
    assert forall|x: Cell| a2.contains(x) <==> a.contains(x) by {
        assert(a2.to_multiset().count(x) == a.to_multiset().count(x));
        assert(a2.contains(x) <==> a2.to_multiset().count(x) > 0);
        assert(a.contains(x) <==> a.to_multiset().count(x) > 0);
    }
    assert forall|x: Cell| b2.contains(x) <==> b.contains(x) by {
        assert(b2.to_multiset().count(x) == b.to_multiset().count(x));
        assert(b2.contains(x) <==> b2.to_multiset().count(x) > 0);
        assert(b.contains(x) <==> b.to_multiset().count(x) > 0);
    }
    if all_before_xy(a, b) {
        assert(all_before_xy(a2, b2));
    } else if all_before_xy(b, a) {
        assert(all_before_xy(b2, a2));
    } else if all_before_yx(a, b) {
        assert(all_before_yx(a2, b2));
    } else {
        assert(all_before_yx(b2, a2));
    }
}

/// A sorted group, possibly turned round, is cut apart at any point.
proof fn lemma_sorted_cut(sorted: Seq<Cell>, whole: Seq<Cell>, by_column: bool, backwards: bool, k: int)
    requires
        0 <= k <= sorted.len(),
        by_column ==> forall|i: int, j: int| 0 <= i < j < sorted.len() ==> cell_le_xy(sorted[i], sorted[j]),
        !by_column ==> forall|i: int, j: int| 0 <= i < j < sorted.len() ==> cell_le_yx(sorted[i], sorted[j]),
        whole == (if backwards { sorted.reverse() } else { sorted }),
    ensures
        cut_apart(whole.take(k), whole.skip(k)),
{
    let a = whole.take(k);
    let b = whole.skip(k);
    let n = sorted.len();
    assert forall|x: Cell, y: Cell| a.contains(x) && b.contains(y) implies
        (if by_column {
            if backwards { cell_le_xy(y, x) } else { cell_le_xy(x, y) }
        } else {
            if backwards { cell_le_yx(y, x) } else { cell_le_yx(x, y) }
        }) by {
        let i = choose|i: int| 0 <= i < a.len() && a[i] == x;
        let j = choose|j: int| 0 <= j < b.len() && b[j] == y;
        assert(whole[i] == x);
        assert(whole[k + j] == y);
        if backwards {
            assert(whole[i] == sorted[n - 1 - i]);
            assert(whole[k + j] == sorted[n - 1 - (k + j)]);
        }
    }
}

/// Recursive rectilinear bisection: reorders `cells` so that, handing the
/// quotas `q[lo..hi]` out in order over consecutive runs of the result, each
/// terrain gets one block. Each step sorts the group by column or by row (at
/// random, either way round), and cuts it where the first half of the quota
/// ends, so a prefix is whole columns or rows plus a partial one. The cells
/// come back each as often as they went in.
pub fn bisect(cells: Vec<Cell>, q: &Vec<(Terrain, usize)>, lo: usize, hi: usize, rng: &mut StdRng) -> (r: Vec<Cell>)
    requires
        lo <= hi <= q@.len(),
        cells@.len() == quota_total(q@.subrange(lo as int, hi as int)),
    ensures
        r@.len() == cells@.len(),
        r@.to_multiset() == cells@.to_multiset(),
        guillotine(r@, q@, lo as int, hi as int),
    decreases hi - lo,
{
    if hi - lo <= 1 {
        return cells;
    }
    let total = cells.len();
    let mut acc: usize = 0;
    let mut split: usize = hi - 1;
    let mut i: usize = lo;
    while i < hi - 1
        invariant_except_break
            acc == quota_total(q@.subrange(lo as int, i as int)),
            split == hi - 1,
            split_from(q@, lo as int, lo as int, hi as int, total as int)
                == split_from(q@, lo as int, i as int, hi as int, total as int),
        invariant
            lo <= i <= hi - 1,
            hi <= q@.len(),
            hi - lo >= 2,
            total == quota_total(q@.subrange(lo as int, hi as int)),
        ensures
            lo < split <= hi - 1,
            split == split_from(q@, lo as int, lo as int, hi as int, total as int),
        decreases hi - 1 - i,
    {
        proof {
            lemma_quota_total_split(q@, lo as int, i as int + 1, hi as int);
            assert(q@.subrange(lo as int, i as int + 1).drop_last() =~= q@.subrange(lo as int, i as int));
        }
        acc = acc + q[i].1;
        if acc >= total - acc {
            split = i + 1;
            break;
        }
        i = i + 1;
    }
    proof {
        lemma_quota_total_split(q@, lo as int, split as int, hi as int);
    }
    let left_len = quota_total_of(q, lo, split);
    let mut cells = cells;
    let by_column = coin_flip_in(rng);
    if by_column {
        sort_by_column(&mut cells);
    } else {
        sort_by_row(&mut cells);
    }
    let ghost sorted = cells@;
    let backwards = coin_flip_in(rng);
    if backwards {
        cells = reversed(cells);
    }
    let ghost whole = cells@;
    proof {
        lemma_sorted_cut(sorted, whole, by_column, backwards, left_len as int);
    }
    let right = cells.split_off(left_len);
    assert(whole =~= cells@ + right@);
    assert(cells@ =~= whole.take(left_len as int));
    assert(right@ =~= whole.skip(left_len as int));
    let mut l = bisect(cells, q, lo, split, rng);
    let mut rr = bisect(right, q, split, hi, rng);
    let ghost lv = l@;
    let ghost rv = rr@;
    l.append(&mut rr);
    proof {
        vstd::seq_lib::lemma_multiset_commutative(lv, rv);
        vstd::seq_lib::lemma_multiset_commutative(whole.subrange(0, left_len as int), whole.subrange(left_len as int, whole.len() as int));
        assert(whole =~= whole.subrange(0, left_len as int) + whole.subrange(left_len as int, whole.len() as int));
        lemma_cut_apart_perm(whole.take(left_len as int), whole.skip(left_len as int), lv, rv);
        assert(l@.take(left_len as int) =~= lv);
        assert(l@.skip(left_len as int) =~= rv);
        assert(l@.len() == total);
    }
    l
}

/// The sum of the counts of `q[lo..hi]`.
fn quota_total_of(q: &Vec<(Terrain, usize)>, lo: usize, hi: usize) -> (r: usize)
    requires
        lo <= hi <= q@.len(),
        quota_total(q@.subrange(lo as int, hi as int)) <= usize::MAX,
    ensures
        r == quota_total(q@.subrange(lo as int, hi as int)),
{
    let mut r: usize = 0;
    let mut i: usize = lo;
    while i < hi
        invariant
            lo <= i <= hi <= q@.len(),
            r == quota_total(q@.subrange(lo as int, i as int)),
            quota_total(q@.subrange(lo as int, hi as int)) <= usize::MAX,
        decreases hi - i,
    {
        proof {
            lemma_quota_total_split(q@, lo as int, i as int + 1, hi as int);
            assert(q@.subrange(lo as int, i as int + 1).drop_last() =~= q@.subrange(lo as int, i as int));
        }
        r = r + q[i].1;
        i = i + 1;
    }
    r
}


/// The terrains of `q` laid out in order, each repeated its count.
pub open spec fn run_of(q: Seq<(Terrain, usize)>) -> Seq<Terrain>
    decreases q.len(),
{
    if q.len() == 0 {
        seq![]
    } else {
        run_of(q.drop_last()) + Seq::new(q.last().1 as nat, |i: int| q.last().0)
    }
}

/// How many cells `q` hands to `t`, over all its entries for `t`.
pub open spec fn run_count(q: Seq<(Terrain, usize)>, t: Terrain) -> nat
    decreases q.len(),
{
    if q.len() == 0 {
        0
    } else {
        run_count(q.drop_last(), t) + if q.last().0 == t { q.last().1 as nat } else { 0nat }
    }
}

pub(crate) proof fn lemma_row_count_concat(a: Seq<Terrain>, b: Seq<Terrain>, t: Terrain)
    ensures
        row_count(a + b, t) == row_count(a, t) + row_count(b, t),
    decreases b.len(),
{
    if b.len() > 0 {
        lemma_row_count_concat(a, b.drop_last(), t);
        assert((a + b).drop_last() =~= a + b.drop_last());
    } else {
        assert(a + b =~= a);
    }
}

pub(crate) proof fn lemma_run_of(q: Seq<(Terrain, usize)>, t: Terrain)
    ensures
        run_of(q).len() == quota_total(q),
        row_count(run_of(q), t) == run_count(q, t),
    decreases q.len(),
{
    if q.len() > 0 {
        lemma_run_of(q.drop_last(), t);
        lemma_row_count_concat(run_of(q.drop_last()), Seq::new(q.last().1 as nat, |i: int| q.last().0), t);
        super::grid::lemma_row_count_uniform(q.last().1 as nat, q.last().0, t);
    }
}

pub(crate) proof fn lemma_run_count_absent(q: Seq<(Terrain, usize)>, t: Terrain)
    requires
        !terrains_of(q).contains(t),
    ensures
        run_count(q, t) == 0,
    decreases q.len(),
{
    if q.len() > 0 {
        assert(terrains_of(q)[q.len() - 1] == q.last().0);
        assert(terrains_of(q.drop_last()) =~= terrains_of(q).drop_last());
        lemma_run_count_absent(q.drop_last(), t);
    }
}

pub(crate) proof fn lemma_run_count_unique(q: Seq<(Terrain, usize)>, i: int)
    requires
        0 <= i < q.len(),
        terrains_of(q).no_duplicates(),
    ensures
        run_count(q, q[i].0) == q[i].1,
    decreases q.len(),
{
    let k = q.len() - 1;
    assert(terrains_of(q.drop_last()) =~= terrains_of(q).drop_last());
    if i < k {
        assert(q[k].0 != q[i].0) by {
            assert(terrains_of(q)[k] == q[k].0);
            assert(terrains_of(q)[i] == q[i].0);
        }
        lemma_run_count_unique(q.drop_last(), i);
    } else {
        assert(!terrains_of(q.drop_last()).contains(q[i].0)) by {
            if terrains_of(q.drop_last()).contains(q[i].0) {
                let j = choose|j: int| 0 <= j < k && terrains_of(q.drop_last())[j] == q[i].0;
                assert(terrains_of(q)[j] == terrains_of(q)[k]);
            }
        }
        lemma_run_count_absent(q.drop_last(), q[i].0);
    }
}

/// `row_count` agrees with the multiset count.
pub proof fn lemma_row_count_multiset(s: Seq<Terrain>, t: Terrain)
    ensures
        row_count(s, t) == s.to_multiset().count(t),
    decreases s.len(),
{
    broadcast use vstd::seq_lib::group_to_multiset_ensures;
    if s.len() > 0 {
        lemma_row_count_multiset(s.drop_last(), t);
        assert(s =~= s.drop_last().push(s.last()));
        vstd::seq_lib::to_multiset_build(s.drop_last(), s.last());
    } else {
        assert(s.to_multiset() =~= vstd::multiset::Multiset::empty());
    }
}

/// The terrains of `q` laid out in order, each repeated its count.
pub(crate) fn run_vec(q: &Vec<(Terrain, usize)>) -> (r: Vec<Terrain>)
    requires
        quota_total(q@) <= usize::MAX,
    ensures
        r@ == run_of(q@),
{
    let mut r: Vec<Terrain> = Vec::new();
    let mut i: usize = 0;
    while i < q.len()
        invariant
            i <= q@.len(),
            r@ == run_of(q@.subrange(0, i as int)),
            quota_total(q@) <= usize::MAX,
        decreases q.len() - i,
    {
        let (t, n) = q[i];
        let ghost head = r@;
        proof {
            assert(q@.subrange(0, i as int + 1).drop_last() =~= q@.subrange(0, i as int));
            lemma_run_of(q@.subrange(0, i as int), t);
            lemma_quota_total_split(q@, 0, i as int, q@.len() as int);
            lemma_quota_total_split(q@, i as int, i as int + 1, q@.len() as int);
            assert(q@.subrange(i as int, i as int + 1).drop_last() =~= Seq::<(Terrain, usize)>::empty());
            assert(q@.subrange(0, q@.len() as int) =~= q@);
            assert(q@.subrange(i as int, i as int + 1).last() == q@[i as int]);
            assert(quota_total(Seq::<(Terrain, usize)>::empty()) == 0);
            assert(quota_total(q@.subrange(i as int, i as int + 1)) == n);
            assert(head.len() == quota_total(q@.subrange(0, i as int)));
        }
        let mut j: usize = 0;
        while j < n
            invariant
                j <= n,
                r@ == head + Seq::new(j as nat, |k: int| t),
                head.len() + n <= usize::MAX,
            decreases n - j,
        {
            r.push(t);
            j = j + 1;
            assert(r@ =~= head + Seq::new(j as nat, |k: int| t));
        }
        i = i + 1;
    }
    assert(q@.subrange(0, q@.len() as int) =~= q@);
    r
}

/// The entries of `q` with a nonzero count.
pub open spec fn positive_of(q: Seq<(Terrain, usize)>) -> Seq<(Terrain, usize)>
    decreases q.len(),
{
    if q.len() == 0 {
        seq![]
    } else if q.last().1 > 0 {
        positive_of(q.drop_last()).push(q.last())
    } else {
        positive_of(q.drop_last())
    }
}

proof fn lemma_positive_of(q: Seq<(Terrain, usize)>, t: Terrain)
    ensures
        run_count(positive_of(q), t) == run_count(q, t),
        quota_total(positive_of(q)) == quota_total(q),
        forall|i: int| 0 <= i < positive_of(q).len() ==> (#[trigger] positive_of(q)[i]).1 > 0,
    decreases q.len(),
{
    if q.len() > 0 {
        lemma_positive_of(q.drop_last(), t);
        let p = positive_of(q.drop_last());
        if q.last().1 > 0 {
            assert(p.push(q.last()).drop_last() =~= p);
        }
    }
}

fn positive(q: &Vec<(Terrain, usize)>) -> (r: Vec<(Terrain, usize)>)
    ensures
        r@ == positive_of(q@),
{
    let mut r: Vec<(Terrain, usize)> = Vec::new();
    let mut i: usize = 0;
    while i < q.len()
        invariant
            i <= q@.len(),
            r@ == positive_of(q@.subrange(0, i as int)),
        decreases q.len() - i,
    {
        assert(q@.subrange(0, i as int + 1).drop_last() =~= q@.subrange(0, i as int));
        if q[i].1 > 0 {
            r.push(q[i]);
        }
        i = i + 1;
    }
    assert(q@.subrange(0, q@.len() as int) =~= q@);
    r
}

/// The cell `(x, y)` lies on a `size` grid.
pub open spec fn on_grid(c: Cell, size: nat) -> bool {
    c.0 < size && c.1 < size
}

/// Every cell of a `size` grid in row order, less the centre when it is
/// reserved for the village.
pub(crate) fn all_cells(size: usize, centre_village: bool) -> (r: Vec<Cell>)
    requires
        size <= MAX_SIZE,
        size % 2 == 1,
    ensures
        r@.no_duplicates(),
        r@.len() == capacity(size as nat, centre_village),
        forall|i: int| 0 <= i < r@.len() ==> on_grid(#[trigger] r@[i], size as nat)
            && (centre_village ==> r@[i] != (size / 2, size / 2)),
{
    let mid = size / 2;
    let mut r: Vec<Cell> = Vec::new();
    let mut y: usize = 0;
    while y < size
        invariant
            y <= size <= MAX_SIZE,
            mid == size / 2,
            size % 2 == 1,
            r@.no_duplicates(),
            forall|i: int| 0 <= i < r@.len() ==> on_grid(#[trigger] r@[i], size as nat)
                && (centre_village ==> r@[i] != (mid, mid))
                && r@[i].1 < y,
            r@.len() + if centre_village && y > mid { 1int } else { 0 } == y * size,
        decreases size - y,
    {
        let mut x: usize = 0;
        while x < size
            invariant
                y < size <= MAX_SIZE,
                x <= size,
                mid == size / 2,
                r@.no_duplicates(),
                forall|i: int| 0 <= i < r@.len() ==> on_grid(#[trigger] r@[i], size as nat)
                    && (centre_village ==> r@[i] != (mid, mid))
                    && (r@[i].1 < y || (r@[i].1 == y && r@[i].0 < x)),
                r@.len() + if centre_village && (y > mid || (y == mid && x > mid)) { 1int } else { 0 } == y * size + x,
            decreases size - x,
        {
            if !(centre_village && x == mid && y == mid) {
                r.push((x, y));
            }
            x = x + 1;
        }
        assert((y + 1) * size == y * size + size) by (nonlinear_arith);
        y = y + 1;
    }
    r
}

/// Writes `labels[i]` into cell `cells[i]`, for every `i`. The cells are
/// distinct and all hold Deadland, so each write turns one Deadland cell
/// into its label.
pub(crate) fn apply_writes(g: &mut Vec<Vec<Terrain>>, cells: &Vec<Cell>, labels: &Vec<Terrain>, Ghost(size): Ghost<nat>)
    requires
        is_square(grid_of(old(g)), size),
        cells@.len() == labels@.len(),
        cells@.no_duplicates(),
        forall|i: int| 0 <= i < cells@.len() ==> on_grid(#[trigger] cells@[i], size),
        forall|i: int| 0 <= i < cells@.len() ==> at(grid_of(old(g)), #[trigger] cells@[i]) == Terrain::Deadland,
    ensures
        is_square(grid_of(final(g)), size),
        forall|t: Terrain| #[trigger] grid_count(grid_of(final(g)), t)
            + if t == Terrain::Deadland { cells@.len() as int } else { 0 }
            == grid_count(grid_of(old(g)), t) + row_count(labels@, t),
        forall|c: Cell| on_grid(c, size) && !cells@.contains(c) ==> at(grid_of(final(g)), c) == at(grid_of(old(g)), c),
        forall|i: int| 0 <= i < cells@.len() ==> at(grid_of(final(g)), #[trigger] cells@[i]) == labels@[i],
{
    let mut k: usize = 0;
    while k < cells.len()
        invariant
            k <= cells@.len() == labels@.len(),
            cells@.no_duplicates(),
            forall|i: int| 0 <= i < cells@.len() ==> on_grid(#[trigger] cells@[i], size),
            forall|i: int| 0 <= i < cells@.len() ==> at(grid_of(old(g)), #[trigger] cells@[i]) == Terrain::Deadland,
            is_square(grid_of(g), size),
            forall|t: Terrain| #[trigger] grid_count(grid_of(g), t)
                + if t == Terrain::Deadland { k as int } else { 0 }
                == grid_count(grid_of(old(g)), t) + row_count(labels@.subrange(0, k as int), t),
            forall|c: Cell| on_grid(c, size) && !cells@.subrange(0, k as int).contains(c)
                ==> at(grid_of(g), c) == at(grid_of(old(g)), c),
            forall|i: int| 0 <= i < k ==> at(grid_of(g), #[trigger] cells@[i]) == labels@[i],
        decreases cells.len() - k,
    {
        let c = cells[k];
        let v = labels[k];
        let ghost before = grid_of(g);
        proof {
            assert(!cells@.subrange(0, k as int).contains(c)) by {
                if cells@.subrange(0, k as int).contains(c) {
                    let j = choose|j: int| 0 <= j < k && cells@.subrange(0, k as int)[j] == c;
                    assert(cells@[j] == cells@[k as int]);
                }
            }
            assert(on_grid(cells@[k as int], size));
            assert(at(before, c) == Terrain::Deadland);
        }
        set_cell(g, c, v);
        proof {
            assert forall|t: Terrain| #[trigger] grid_count(grid_of(g), t)
                + if t == Terrain::Deadland { (k + 1) as int } else { 0 }
                == grid_count(grid_of(old(g)), t) + row_count(labels@.subrange(0, k as int + 1), t) by {
                lemma_grid_count_put(before, c, v, t);
                assert(labels@.subrange(0, k as int + 1).drop_last() =~= labels@.subrange(0, k as int));
            }
            assert forall|d: Cell| on_grid(d, size) && !cells@.subrange(0, k as int + 1).contains(d)
                implies at(grid_of(g), d) == at(grid_of(old(g)), d) by {
                assert(cells@.subrange(0, k as int + 1)[k as int] == c);
                if cells@.subrange(0, k as int).contains(d) {
                    let j = choose|j: int| 0 <= j < k && cells@.subrange(0, k as int)[j] == d;
                    assert(cells@.subrange(0, k as int + 1)[j] == d);
                }
            }
            assert forall|y: int| 0 <= y < size implies (#[trigger] grid_of(g)[y]).len() == size by {
                assert(before[y].len() == size);
            }
            assert forall|i: int| 0 <= i < k + 1 implies at(grid_of(g), #[trigger] cells@[i]) == labels@[i] by {
                if i < k {
                    assert(cells@[i] != cells@[k as int]);
                    assert(at(before, cells@[i]) == labels@[i]);
                }
            }
        }
        k = k + 1;
    }
    assert(cells@.subrange(0, cells@.len() as int) =~= cells@);
    assert(labels@.subrange(0, labels@.len() as int) =~= labels@);
}


/// The orthogonal neighbours of `c` on a `size` grid: left, right, up,
/// down, as far as they exist.
pub open spec fn orth(c: Cell, size: nat) -> Seq<Cell> {
    let (x, y) = c;
    (if x > 0 { seq![((x - 1) as usize, y)] } else { seq![] })
        + (if x + 1 < size { seq![((x + 1) as usize, y)] } else { seq![] })
        + (if y > 0 { seq![(x, (y - 1) as usize)] } else { seq![] })
        + (if y + 1 < size { seq![(x, (y + 1) as usize)] } else { seq![] })
}

/// The orthogonal neighbours of `c` on a `size` grid, in the order left,
/// right, up, down.
pub fn orthogonal(c: Cell, size: usize) -> (r: Vec<Cell>)
    ensures
        r@ == orth(c, size as nat),
{
    let (x, y) = c;
    let mut out: Vec<Cell> = Vec::new();
    if x > 0 {
        out.push((x - 1, y));
    }
    if x < size && x + 1 < size {
        out.push((x + 1, y));
    }
    if y > 0 {
        out.push((x, y - 1));
    }
    if y < size && y + 1 < size {
        out.push((x, y + 1));
    }
    assert(out@ =~= orth(c, size as nat));
    out
}

/// Over the neighbours `nbs`, skipping `skip`, the change in unlike
/// clustering neighbours when the cell they surround turns from `from` to
/// `to`.
pub open spec fn side_delta(g: Seq<Seq<Terrain>>, nbs: Seq<Cell>, skip: Cell, from: Terrain, to: Terrain) -> int
    decreases nbs.len(),
{
    if nbs.len() == 0 {
        0
    } else {
        let nb = nbs.last();
        let tn = at(g, nb);
        side_delta(g, nbs.drop_last(), skip, from, to) + if nb == skip || !clustering(tn) {
            0
        } else {
            ind(tn != to) - ind(tn != from)
        }
    }
}

/// The change in the number of unlike orthogonally-adjacent clustering
/// pairs if the terrain at `p` and `q` were swapped.
pub open spec fn swap_delta(g: Seq<Seq<Terrain>>, p: Cell, q: Cell) -> int {
    side_delta(g, orth(p, g.len()), q, at(g, p), at(g, q))
        + side_delta(g, orth(q, g.len()), p, at(g, q), at(g, p))
}

fn side_delta_of(g: &Vec<Vec<Terrain>>, nbs: &Vec<Cell>, skip: Cell, from: Terrain, to: Terrain, Ghost(size): Ghost<nat>) -> (r: i32)
    requires
        is_square(grid_of(g), size),
        nbs@.len() <= 4,
        forall|i: int| 0 <= i < nbs@.len() ==> on_grid(#[trigger] nbs@[i], size),
    ensures
        r == side_delta(grid_of(g), nbs@, skip, from, to),
        -4 <= r <= 4,
{
    let mut d: i32 = 0;
    let mut i: usize = 0;
    while i < nbs.len()
        invariant
            is_square(grid_of(g), size),
            i <= nbs@.len() <= 4,
            forall|k: int| 0 <= k < nbs@.len() ==> on_grid(#[trigger] nbs@[k], size),
            d == side_delta(grid_of(g), nbs@.subrange(0, i as int), skip, from, to),
            -(i as int) <= d <= i,
        decreases nbs.len() - i,
    {
        let nb = nbs[i];
        proof {
            assert(on_grid(nbs@[i as int], size));
            assert(nbs@.subrange(0, i as int + 1).drop_last() =~= nbs@.subrange(0, i as int));
            assert(grid_of(g)[nb.1 as int] == g@[nb.1 as int]@);
        }
        let tn = g[nb.1][nb.0];
        if !(nb.0 == skip.0 && nb.1 == skip.1) && tn.is_clustering() {
            let a: i32 = if tn != to { 1 } else { 0 };
            let b: i32 = if tn != from { 1 } else { 0 };
            d = d + a - b;
        }
        i = i + 1;
    }
    assert(nbs@.subrange(0, nbs@.len() as int) =~= nbs@);
    d
}

proof fn lemma_orth_on_grid(c: Cell, size: nat)
    requires
        on_grid(c, size),
    ensures
        orth(c, size).len() <= 4,
        forall|i: int| 0 <= i < orth(c, size).len() ==> on_grid(#[trigger] orth(c, size)[i], size),
{
}

/// Change in the number of unlike orthogonally-adjacent clustering-cell
/// pairs if the terrain at `p` and `q` were swapped. Only edges touching `p`
/// or `q` move.
pub fn boundary_delta(g: &Vec<Vec<Terrain>>, p: Cell, q: Cell) -> (r: i32)
    requires
        is_square(grid_of(g), g@.len()),
        on_grid(p, g@.len()),
        on_grid(q, g@.len()),
    ensures
        r == swap_delta(grid_of(g), p, q),
{
    let size = g.len();
    proof {
        lemma_orth_on_grid(p, size as nat);
        lemma_orth_on_grid(q, size as nat);
        assert(grid_of(g)[p.1 as int] == g@[p.1 as int]@);
        assert(grid_of(g)[q.1 as int] == g@[q.1 as int]@);
    }
    let tp = g[p.1][p.0];
    let tq = g[q.1][q.0];
    let np = orthogonal(p, size);
    let nq = orthogonal(q, size);
    let a = side_delta_of(g, &np, q, tp, tq, Ghost(size as nat));
    let b = side_delta_of(g, &nq, p, tq, tp, Ghost(size as nat));
    a + b
}

/// Whether some cell of `g` holds `t`.
pub open spec fn holds_somewhere(g: Seq<Seq<Terrain>>, t: Terrain) -> bool {
    exists|x: int, y: int| 0 <= y < g.len() && 0 <= x < g[y].len() && #[trigger] g[y][x] == t
}

/// `g` with the terrain at `p` and `q` exchanged.
pub open spec fn swapped(g: Seq<Seq<Terrain>>, p: Cell, q: Cell) -> Seq<Seq<Terrain>> {
    put(put(g, p, at(g, q)), q, at(g, p))
}

/// Swaps the terrain at `p` and `q`.
fn swap_cells(g: &mut Vec<Vec<Terrain>>, p: Cell, q: Cell, Ghost(size): Ghost<nat>)
    requires
        is_square(grid_of(old(g)), size),
        on_grid(p, size),
        on_grid(q, size),
        p != q,
    ensures
        grid_of(final(g)) == swapped(grid_of(old(g)), p, q),
        is_square(grid_of(final(g)), size),
        forall|t: Terrain| #[trigger] grid_count(grid_of(final(g)), t) == grid_count(grid_of(old(g)), t),
        forall|c: Cell| on_grid(c, size) && c != p && c != q ==> at(grid_of(final(g)), c) == at(grid_of(old(g)), c),
{
    let ghost g0 = grid_of(g);
    proof {
        assert(grid_of(g)[p.1 as int] == g@[p.1 as int]@);
        assert(grid_of(g)[q.1 as int] == g@[q.1 as int]@);
    }
    let tp = g[p.1][p.0];
    let tq = g[q.1][q.0];
    set_cell(g, p, tq);
    let ghost g1 = grid_of(g);
    proof {
        assert(g1[p.1 as int].len() == size);
        assert(g1[q.1 as int].len() == size);
        assert(g1.len() == g@.len());
        assert(g1[q.1 as int] == g@[q.1 as int]@);
    }
    set_cell(g, q, tp);
    proof {
        assert forall|t: Terrain| #[trigger] grid_count(grid_of(g), t) == grid_count(g0, t) by {
            lemma_grid_count_put(g0, p, tq, t);
            lemma_grid_count_put(g1, q, tp, t);
            assert(at(g1, q) == tq);
        }
        assert forall|y: int| 0 <= y < size implies (#[trigger] grid_of(g)[y]).len() == size by {
            assert(g0[y].len() == size);
        }
    }
}

/// How likely, in millionths, a swap that raises the unlike-neighbour count
/// is taken: `(1 - affinity)^2`, affinity in thousandths.
pub open spec fn melt_disorder(affinity: u32) -> int {
    (AFFINITY_WHOLE - affinity) * (AFFINITY_WHOLE - affinity)
}

/// Whether a cell holds other terrain than `p` in `g`.
pub open spec fn unlike(g: Seq<Seq<Terrain>>, p: Cell) -> spec_fn(Cell) -> bool {
    |c: Cell| at(g, c) != at(g, p)
}

/// The cells at the indices `ks` of `cells`.
pub open spec fn picked(cells: Seq<Cell>, ks: Seq<u64>) -> Seq<Cell> {
    ks.map_values(|k: u64| cells[k as int])
}

/// The draws of one melting step: the index of the first cell, up to nine
/// indices tried in turn for the second, and the roll, in millionths, that
/// decides on a swap that raises the unlike-neighbour count.
pub open spec fn melt_draw_ok(d: (u64, Seq<u64>, u64), n: int) -> bool {
    &&& d.0 < n
    &&& d.1.len() == 9
    &&& forall|k: int| 0 <= k < 9 ==> #[trigger] d.1[k] < n
    &&& d.2 < 1_000_000
}

/// One melting step: the first tried cell that holds other terrain than
/// the first cell is swapped with it, if that doesn't raise the
/// unlike-neighbour count or the roll is under `disorder`; where no tried
/// cell differs, nothing changes.
pub open spec fn melt_step(g: Seq<Seq<Terrain>>, cells: Seq<Cell>, disorder: int, d: (u64, Seq<u64>, u64)) -> Seq<Seq<Terrain>> {
    let p = cells[d.0 as int];
    match first_where(picked(cells, d.1), unlike(g, p)) {
        None => g,
        Some(q) => if swap_delta(g, p, q) <= 0 || (d.2 as int) < disorder { swapped(g, p, q) } else { g },
    }
}

/// The grid after the melting steps with the given draws, in order.
pub open spec fn melt_run(g: Seq<Seq<Terrain>>, cells: Seq<Cell>, disorder: int, draws: Seq<(u64, Seq<u64>, u64)>) -> Seq<Seq<Terrain>>
    decreases draws.len(),
{
    if draws.len() == 0 {
        g
    } else {
        melt_step(melt_run(g, cells, disorder, draws.drop_last()), cells, disorder, draws.last())
    }
}

/// Disorders the clean layout toward randomness by repeatedly trying to swap
/// two of `cells` holding different terrain. A swap that doesn't raise the
/// unlike-neighbour count is always taken; one that does is taken with a
/// flat chance of `(1 - affinity)^2`. Swaps never change tile counts, and
/// cells outside `cells` are never touched.
fn melt(g: &mut Vec<Vec<Terrain>>, cells: &Vec<Cell>, affinity: u32, rng: &mut StdRng, Ghost(size): Ghost<nat>)
    requires
        is_square(grid_of(old(g)), size),
        size <= MAX_SIZE,
        affinity < AFFINITY_WHOLE,
        cells@.len() <= size * size,
        forall|i: int| 0 <= i < cells@.len() ==> on_grid(#[trigger] cells@[i], size),
    ensures
        exists|draws: Seq<(u64, Seq<u64>, u64)>| {
            &&& draws.len() == MELT_SWEEPS * cells@.len()
            &&& forall|i: int| 0 <= i < draws.len() ==> melt_draw_ok(#[trigger] draws[i], cells@.len() as int)
            &&& grid_of(final(g)) == melt_run(grid_of(old(g)), cells@, melt_disorder(affinity), draws)
        },
        is_square(grid_of(final(g)), size),
        forall|t: Terrain| #[trigger] grid_count(grid_of(final(g)), t) == grid_count(grid_of(old(g)), t),
        forall|c: Cell| on_grid(c, size) && !cells@.contains(c) ==> at(grid_of(final(g)), c) == at(grid_of(old(g)), c),
{
    let n = cells.len();
    if n == 0 {
        assert(melt_run(grid_of(g), cells@, melt_disorder(affinity), Seq::<(u64, Seq<u64>, u64)>::empty()) == grid_of(g));
        return;
    }
    let left: u64 = (AFFINITY_WHOLE - affinity) as u64;
    proof {
        assert(left * left <= 1000 * 1000) by (nonlinear_arith)
            requires left <= 1000;
    }
    let disorder: u64 = left * left;
    proof {
        assert(n as int * 80 <= 65535 * 65535 * 80) by (nonlinear_arith)
            requires n <= size * size, size <= 65535;
    }
    let iterations: u64 = MELT_SWEEPS as u64 * n as u64;
    let ghost dis = melt_disorder(affinity);
    let ghost g_start = grid_of(g);
    let ghost mut draws: Seq<(u64, Seq<u64>, u64)> = Seq::empty();
    let mut it: u64 = 0;
    while it < iterations
        invariant
            n == cells@.len(),
            n > 0,
            iterations == MELT_SWEEPS * n,
            disorder == dis,
            dis == melt_disorder(affinity),
            g_start == grid_of(old(g)),
            is_square(grid_of(g), size),
            forall|i: int| 0 <= i < cells@.len() ==> on_grid(#[trigger] cells@[i], size),
            forall|t: Terrain| #[trigger] grid_count(grid_of(g), t) == grid_count(grid_of(old(g)), t),
            forall|c: Cell| on_grid(c, size) && !cells@.contains(c) ==> at(grid_of(g), c) == at(grid_of(old(g)), c),
            draws.len() == it,
            it <= iterations,
            forall|i: int| 0 <= i < draws.len() ==> melt_draw_ok(#[trigger] draws[i], n as int),
            grid_of(g) == melt_run(g_start, cells@, dis, draws),
        decreases iterations - it,
    {
        it = it + 1;
        let ghost g_now = grid_of(g);
        let ip = roll_below_in(rng, n as u64) as usize;
        let p = cells[ip];
        let iq = roll_below_in(rng, n as u64) as usize;
        let mut q = cells[iq];
        let ghost mut picks: Seq<u64> = seq![iq as u64];
        proof {
            assert(cells@[ip as int] == p);
            assert(cells@[iq as int] == q);
            assert(on_grid(p, size));
            assert(on_grid(q, size));
            assert(grid_of(g)[p.1 as int] == g@[p.1 as int]@);
            assert(grid_of(g)[q.1 as int] == g@[q.1 as int]@);
        }
        let mut tries: u32 = 0;
        while g[q.1][q.0] == g[p.1][p.0] && tries < 8
            invariant
                n == cells@.len(),
                n > 0,
                is_square(grid_of(g), size),
                g@.len() == size,
                g_now == grid_of(g),
                forall|i: int| 0 <= i < cells@.len() ==> on_grid(#[trigger] cells@[i], size),
                on_grid(p, size),
                on_grid(q, size),
                grid_of(g)[p.1 as int] == g@[p.1 as int]@,
                grid_of(g)[q.1 as int] == g@[q.1 as int]@,
                cells@.contains(p),
                cells@.contains(q),
                tries <= 8,
                picks.len() == tries + 1,
                q == cells@[picks.last() as int],
                forall|k: int| 0 <= k < picks.len() ==> #[trigger] picks[k] < n,
                forall|k: int| 0 <= k < tries ==> at(g_now, cells@[#[trigger] picks[k] as int]) == at(g_now, p),
            decreases 8 - tries,
        {
            let iq2 = roll_below_in(rng, n as u64) as usize;
            proof {
                assert(at(g_now, q) == at(g_now, p));
                picks = picks.push(iq2 as u64);
            }
            q = cells[iq2];
            proof {
                assert(cells@[iq2 as int] == q);
                assert(on_grid(q, size));
                assert(grid_of(g)[q.1 as int] == g@[q.1 as int]@);
            }
            tries = tries + 1;
        }
        let ghost padded: Seq<u64> = picks + Seq::new((9 - picks.len()) as nat, |k: int| 0u64);
        proof {
            assert(padded.len() == 9);
            assert forall|k: int| 0 <= k < 9 implies #[trigger] padded[k] < n by {
                if k < picks.len() {
                    assert(padded[k] == picks[k]);
                }
            }
            assert forall|k: int| 0 <= k < picks.len() implies #[trigger] picked(cells@, padded)[k] == cells@[picks[k] as int] by {
                assert(padded[k] == picks[k]);
            }
            assert(p == cells@[ip as int]);
        }
        if g[q.1][q.0] == g[p.1][p.0] {
            proof {
                let d = (ip as u64, padded, 0u64);
                assert forall|j: int| 0 <= j < picked(cells@, padded).len() implies !unlike(g_now, p)(#[trigger] picked(cells@, padded)[j]) by {
                    assert(picked(cells@, padded)[j] == cells@[picks[j] as int]);
                    if j < tries {
                    } else {
                        assert(picks[j] == picks.last());
                    }
                }
                lemma_first_where_none(picked(cells@, padded), unlike(g_now, p));
                assert(melt_step(g_now, cells@, dis, d) == g_now);
                assert(draws.push(d).drop_last() =~= draws);
                draws = draws.push(d);
            }
            continue;
        }
        proof {
            assert(g@.len() == size);
            assert forall|j: int| 0 <= j < tries implies !unlike(g_now, p)(#[trigger] picked(cells@, padded)[j]) by {
                assert(picked(cells@, padded)[j] == cells@[picks[j] as int]);
            }
            assert(picked(cells@, padded)[tries as int] == q);
            lemma_first_where_at(picked(cells@, padded), unlike(g_now, p), tries as int);
        }
        let worsens = boundary_delta(g, p, q) > 0;
        let ghost mut roll: u64 = 0;
        let take = if !worsens {
            true
        } else {
            let r = roll_below_in(rng, 1_000_000);
            proof {
                roll = r;
            }
            r < disorder
        };
        let ghost d = (ip as u64, padded, roll);
        proof {
            assert(melt_draw_ok(d, n as int));
            assert(draws.push(d).drop_last() =~= draws);
        }
        if take {
            let ghost before = grid_of(g);
            swap_cells(g, p, q, Ghost(size));
            proof {
                assert forall|c: Cell| on_grid(c, size) && !cells@.contains(c)
                    implies at(grid_of(g), c) == at(grid_of(old(g)), c) by {
                    assert(c != p) by {
                        assert(cells@.contains(p));
                    }
                    assert(c != q) by {
                        assert(cells@.contains(q));
                    }
                }
            }
        }
        proof {
            assert(grid_of(g) == melt_step(g_now, cells@, dis, d));
            draws = draws.push(d);
        }
    }
}


/// The unmarked cells of a grid of flags.
pub open spec fn unmarked(s: Seq<Seq<bool>>) -> nat
    decreases s.len(),
{
    if s.len() == 0 {
        0
    } else {
        unmarked(s.drop_last()) + (s.last().len() - count_true(s.last())) as nat
    }
}

proof fn lemma_unmarked_mark(s: Seq<Seq<bool>>, c: Cell)
    requires
        c.1 < s.len(),
        c.0 < s[c.1 as int].len(),
        !s[c.1 as int][c.0 as int],
    ensures
        unmarked(s.update(c.1 as int, s[c.1 as int].update(c.0 as int, true))) + 1 == unmarked(s),
    decreases s.len(),
{
    let y = c.1 as int;
    let u = s.update(y, s[y].update(c.0 as int, true));
    lemma_count_true_update(s[y], c.0 as int);
    lemma_count_true_bound(s[y]);
    lemma_count_true_bound(s[y].update(c.0 as int, true));
    if y == s.len() - 1 {
        assert(u.drop_last() =~= s.drop_last());
    } else {
        lemma_unmarked_mark(s.drop_last(), c);
        assert(u.drop_last() =~= s.drop_last().update(y, s[y].update(c.0 as int, true)));
        lemma_count_true_bound(s.last());
    }
}

/// The flags as nested sequences.
pub open spec fn flags_of(s: &Vec<Vec<bool>>) -> Seq<Seq<bool>> {
    s@.map_values(|row: Vec<bool>| row@)
}

fn mark(s: &mut Vec<Vec<bool>>, c: Cell)
    requires
        c.1 < old(s)@.len(),
        c.0 < old(s)@[c.1 as int]@.len(),
    ensures
        flags_of(final(s)) == flags_of(old(s)).update(c.1 as int, flags_of(old(s))[c.1 as int].update(c.0 as int, true)),
        flags_of(final(s)).len() == flags_of(old(s)).len(),
        forall|j: int| 0 <= j < flags_of(old(s)).len() ==> (#[trigger] flags_of(final(s))[j]).len() == flags_of(old(s))[j].len(),
        forall|d: Cell| d.1 < flags_of(old(s)).len() && d.0 < flags_of(old(s))[d.1 as int].len()
            ==> #[trigger] flag(flags_of(final(s)), d) == (flag(flags_of(old(s)), d) || d == c),
{
    let (x, y) = c;
    s[y].set(x, true);
    assert(flags_of(s) =~= flags_of(old(s)).update(c.1 as int, flags_of(old(s))[c.1 as int].update(c.0 as int, true)));
}

fn unmarked_flags(size: usize) -> (r: Vec<Vec<bool>>)
    ensures
        flags_of(&r).len() == size,
        forall|y: int| 0 <= y < size ==> (#[trigger] flags_of(&r)[y]).len() == size,
        forall|x: int, y: int| 0 <= y < size && 0 <= x < size ==> !#[trigger] flags_of(&r)[y][x],
{
    let mut r: Vec<Vec<bool>> = Vec::new();
    let mut y: usize = 0;
    while y < size
        invariant
            y <= size,
            flags_of(&r) == Seq::new(y as nat, |i: int| Seq::new(size as nat, |j: int| false)),
        decreases size - y,
    {
        let mut row: Vec<bool> = Vec::new();
        let mut x: usize = 0;
        while x < size
            invariant
                x <= size,
                y < size,
                row@ == Seq::new(x as nat, |j: int| false),
                flags_of(&r) == Seq::new(y as nat, |i: int| Seq::new(size as nat, |j: int| false)),
            decreases size - x,
        {
            row.push(false);
            x = x + 1;
            assert(row@ =~= Seq::new(x as nat, |j: int| false));
        }
        let ghost pre = r@;
        let ghost rv = row@;
        assert(flags_of(&r).len() == pre.len());
        r.push(row);
        assert forall|i: int| 0 <= i < y + 1 implies #[trigger] flags_of(&r)[i] == Seq::new(size as nat, |j: int| false) by {
            if i < y {
                assert(r@[i] == pre[i]);
                assert(pre.map_values(|row: Vec<bool>| row@)[i] == pre[i]@);
            } else {
                assert(r@[i]@ == rv);
            }
        }
        y = y + 1;
        assert(flags_of(&r) =~= Seq::new(y as nat, |i: int| Seq::new(size as nat, |j: int| false)));
    }
    r
}

/// The neighbours `orth` lists are exactly the orthogonal neighbours on
/// the grid.
proof fn lemma_orth_adjacent(c: Cell, size: nat)
    requires
        on_grid(c, size),
        size <= MAX_SIZE,
    ensures
        forall|i: int| 0 <= i < orth(c, size).len()
            ==> adjacent(c, #[trigger] orth(c, size)[i]) && on_grid(orth(c, size)[i], size),
        forall|d: Cell| #[trigger] adjacent(c, d) && on_grid(d, size) ==> orth(c, size).contains(d),
{
    let (x, y) = c;
    let o = orth(c, size);
    let l: Seq<Cell> = if x > 0 { seq![((x - 1) as usize, y)] } else { seq![] };
    let r: Seq<Cell> = if x + 1 < size { seq![((x + 1) as usize, y)] } else { seq![] };
    let u: Seq<Cell> = if y > 0 { seq![(x, (y - 1) as usize)] } else { seq![] };
    let w: Seq<Cell> = if y + 1 < size { seq![(x, (y + 1) as usize)] } else { seq![] };
    assert(o == l + r + u + w);
    assert forall|i: int| 0 <= i < o.len() implies adjacent(c, #[trigger] o[i]) && on_grid(o[i], size) by {
        if i < l.len() {
            assert(o[i] == l[i]);
        } else if i < l.len() + r.len() {
            assert(o[i] == r[i - l.len()]);
        } else if i < l.len() + r.len() + u.len() {
            assert(o[i] == u[i - l.len() - r.len()]);
        } else {
            assert(o[i] == w[i - l.len() - r.len() - u.len()]);
        }
    }
    assert forall|d: Cell| #[trigger] adjacent(c, d) && on_grid(d, size) implies orth(c, size).contains(d) by {
        let (x, y) = c;
        let o = orth(c, size);
        let l: Seq<Cell> = if x > 0 { seq![((x - 1) as usize, y)] } else { seq![] };
        let r: Seq<Cell> = if x + 1 < size { seq![((x + 1) as usize, y)] } else { seq![] };
        let u: Seq<Cell> = if y > 0 { seq![(x, (y - 1) as usize)] } else { seq![] };
        let w: Seq<Cell> = if y + 1 < size { seq![(x, (y + 1) as usize)] } else { seq![] };
        assert(o == l + r + u + w);
        if d.1 == y && d.0 + 1 == x {
            assert(o[0] == d);
        } else if d.1 == y && x + 1 == d.0 {
            assert(o[l.len() as int] == d);
        } else if d.0 == x && d.1 + 1 == y {
            assert(o[(l.len() + r.len()) as int] == d);
        } else {
            assert(o[(l.len() + r.len() + u.len()) as int] == d);
        }
    }
}

/// The flags are a `size`-square grid.
pub open spec fn flags_square(s: Seq<Seq<bool>>, size: nat) -> bool {
    s.len() == size && forall|j: int| 0 <= j < size ==> (#[trigger] s[j]).len() == size
}

/// Flags the unflagged neighbours of `p` that hold `t`, pushing each onto
/// the stack.
fn visit_neighbours(g: &Vec<Vec<Terrain>>, t: Terrain, seen: &mut Vec<Vec<bool>>, stack: &mut Vec<Cell>, p: Cell,
    Ghost(c0): Ghost<Cell>, Ghost(s0): Ghost<Seq<Seq<bool>>>)
    requires
        is_square(grid_of(g), g@.len()),
        g@.len() <= MAX_SIZE,
        flags_square(flags_of(old(seen)), g@.len() as nat),
        on_grid(p, g@.len() as nat),
        in_region(grid_of(g), t, p),
        linked(grid_of(g), t, c0, p),
        forall|c: Cell| on_grid(c, g@.len() as nat) && #[trigger] flag(flags_of(old(seen)), c) ==> in_region(grid_of(g), t, c)
            && (flag(s0, c) || linked(grid_of(g), t, c0, c)),
        forall|i: int| 0 <= i < old(stack)@.len() ==> on_grid(#[trigger] old(stack)@[i], g@.len() as nat)
            && flag(flags_of(old(seen)), old(stack)@[i]) && linked(grid_of(g), t, c0, old(stack)@[i]),
    ensures
        flags_square(flags_of(final(seen)), g@.len() as nat),
        forall|c: Cell| on_grid(c, g@.len() as nat) && #[trigger] flag(flags_of(old(seen)), c) ==> flag(flags_of(final(seen)), c),
        forall|c: Cell| on_grid(c, g@.len() as nat) && #[trigger] flag(flags_of(final(seen)), c) ==> in_region(grid_of(g), t, c)
            && (flag(s0, c) || linked(grid_of(g), t, c0, c)),
        forall|i: int| 0 <= i < final(stack)@.len() ==> on_grid(#[trigger] final(stack)@[i], g@.len() as nat)
            && flag(flags_of(final(seen)), final(stack)@[i]) && linked(grid_of(g), t, c0, final(stack)@[i]),
        closed_at(grid_of(g), t, flags_of(final(seen)), p),
        forall|c: Cell| on_grid(c, g@.len() as nat) && #[trigger] flag(flags_of(final(seen)), c) && !flag(flags_of(old(seen)), c)
            ==> final(stack)@.contains(c),
        forall|i: int| 0 <= i < old(stack)@.len() ==> final(stack)@[i] == #[trigger] old(stack)@[i],
        final(stack)@.len() >= old(stack)@.len(),
        unmarked(flags_of(final(seen))) + (final(stack)@.len() - old(stack)@.len()) == unmarked(flags_of(old(seen))),
{
    let size = g.len();
    let ghost gv = grid_of(g);
    let ghost n = size as nat;
    proof {
        lemma_orth_on_grid(p, n);
        lemma_orth_adjacent(p, n);
    }
    let nbs = orthogonal(p, size);
    let mut k: usize = 0;
    while k < nbs.len()
        invariant
            size == g@.len(),
            n == size,
            gv == grid_of(g),
            is_square(gv, n),
            nbs@ == orth(p, n),
            k <= nbs@.len(),
            forall|i: int| 0 <= i < nbs@.len() ==> on_grid(#[trigger] nbs@[i], n) && adjacent(p, nbs@[i]),
            in_region(gv, t, p),
            linked(gv, t, c0, p),
            flags_square(flags_of(seen), n),
            forall|c: Cell| on_grid(c, n) && #[trigger] flag(flags_of(old(seen)), c) ==> flag(flags_of(seen), c),
            forall|c: Cell| on_grid(c, n) && #[trigger] flag(flags_of(seen), c) ==> in_region(gv, t, c)
                && (flag(s0, c) || linked(gv, t, c0, c)),
            forall|i: int| 0 <= i < stack@.len() ==> on_grid(#[trigger] stack@[i], n)
                && flag(flags_of(seen), stack@[i]) && linked(gv, t, c0, stack@[i]),
            forall|c: Cell| on_grid(c, n) && #[trigger] flag(flags_of(seen), c) && !flag(flags_of(old(seen)), c)
                ==> stack@.contains(c),
            forall|i: int| 0 <= i < old(stack)@.len() ==> stack@[i] == #[trigger] old(stack)@[i],
            stack@.len() >= old(stack)@.len(),
            unmarked(flags_of(seen)) + (stack@.len() - old(stack)@.len()) == unmarked(flags_of(old(seen))),
            forall|j: int| 0 <= j < k && in_region(gv, t, #[trigger] nbs@[j]) ==> flag(flags_of(seen), nbs@[j]),
        decreases nbs.len() - k,
    {
        let nb = nbs[k];
        proof {
            assert(on_grid(nbs@[k as int], n));
            assert(gv[nb.1 as int] == g@[nb.1 as int]@);
            assert(flags_of(seen)[nb.1 as int] == seen@[nb.1 as int]@);
        }
        if !seen[nb.1][nb.0] && g[nb.1][nb.0] == t {
            let ghost st1 = stack@;
            proof {
                lemma_unmarked_mark(flags_of(seen), nb);
                assert(in_region(gv, t, nb));
                lemma_linked_step(gv, t, c0, p, nb);
            }
            mark(seen, nb);
            stack.push(nb);
            proof {
                assert(stack@ == st1.push(nb));
                assert(stack@[stack@.len() - 1] == nb);
                assert forall|i: int| 0 <= i < stack@.len() implies on_grid(#[trigger] stack@[i], n)
                    && flag(flags_of(seen), stack@[i]) && linked(gv, t, c0, stack@[i]) by {
                    if i < st1.len() {
                        assert(stack@[i] == st1[i]);
                    }
                }
                assert forall|c: Cell| on_grid(c, n) && #[trigger] flag(flags_of(seen), c) && !flag(flags_of(old(seen)), c)
                    implies stack@.contains(c) by {
                    if c != nb {
                        let i = choose|i: int| 0 <= i < st1.len() && st1[i] == c;
                        assert(stack@[i] == c);
                    }
                }
            }
        }
        k = k + 1;
    }
    proof {
        assert forall|d: Cell| #[trigger] adjacent(p, d) && in_region(gv, t, d) implies flag(flags_of(seen), d) by {
            assert(orth(p, n).contains(d));
            let j = choose|j: int| 0 <= j < nbs@.len() && nbs@[j] == d;
            assert(in_region(gv, t, nbs@[j]));
        }
    }
}

/// Flags every cell holding `t` that a walk through `t` links to `c0`.
fn flood(g: &Vec<Vec<Terrain>>, t: Terrain, seen: &mut Vec<Vec<bool>>, c0: Cell)
    requires
        is_square(grid_of(g), g@.len()),
        g@.len() <= MAX_SIZE,
        flags_square(flags_of(old(seen)), g@.len() as nat),
        in_region(grid_of(g), t, c0),
        !flag(flags_of(old(seen)), c0),
        forall|c: Cell| on_grid(c, g@.len() as nat) && #[trigger] flag(flags_of(old(seen)), c) ==> in_region(grid_of(g), t, c),
        forall|c: Cell| in_region(grid_of(g), t, c) && #[trigger] flag(flags_of(old(seen)), c)
            ==> closed_at(grid_of(g), t, flags_of(old(seen)), c),
    ensures
        flags_square(flags_of(final(seen)), g@.len() as nat),
        flag(flags_of(final(seen)), c0),
        forall|c: Cell| on_grid(c, g@.len() as nat) && #[trigger] flag(flags_of(old(seen)), c) ==> flag(flags_of(final(seen)), c),
        forall|c: Cell| on_grid(c, g@.len() as nat) && #[trigger] flag(flags_of(final(seen)), c) ==> in_region(grid_of(g), t, c)
            && (flag(flags_of(old(seen)), c) || linked(grid_of(g), t, c0, c)),
        forall|c: Cell| in_region(grid_of(g), t, c) && #[trigger] flag(flags_of(final(seen)), c)
            ==> closed_at(grid_of(g), t, flags_of(final(seen)), c),
{
    let size = g.len();
    let ghost gv = grid_of(g);
    let ghost n = size as nat;
    let ghost s0 = flags_of(seen);
    proof {
        lemma_linked_refl(gv, t, c0);
        lemma_unmarked_mark(flags_of(seen), c0);
    }
    mark(seen, c0);
    let mut stack: Vec<Cell> = vec![c0];
    proof {
        assert(stack@ == seq![c0]);
        assert(stack@[0] == c0);
        assert forall|c: Cell| in_region(gv, t, c) && #[trigger] flag(flags_of(seen), c) && !stack@.contains(c)
            implies closed_at(gv, t, flags_of(seen), c) by {
            assert(c != c0);
            assert(flag(s0, c));
            assert(closed_at(gv, t, s0, c));
            assert forall|d: Cell| #[trigger] adjacent(c, d) && in_region(gv, t, d) implies flag(flags_of(seen), d) by {
                assert(flag(s0, d));
            }
        }
    }
    while stack.len() > 0
        invariant
            size == g@.len() <= MAX_SIZE,
            n == size,
            gv == grid_of(g),
            is_square(gv, n),
            flags_square(flags_of(seen), n),
            flag(flags_of(seen), c0),
            forall|c: Cell| on_grid(c, n) && #[trigger] flag(s0, c) ==> flag(flags_of(seen), c),
            forall|c: Cell| on_grid(c, n) && #[trigger] flag(flags_of(seen), c) ==> in_region(gv, t, c)
                && (flag(s0, c) || linked(gv, t, c0, c)),
            forall|c: Cell| in_region(gv, t, c) && #[trigger] flag(flags_of(seen), c) && !stack@.contains(c)
                ==> closed_at(gv, t, flags_of(seen), c),
            forall|i: int| 0 <= i < stack@.len() ==> on_grid(#[trigger] stack@[i], n)
                && flag(flags_of(seen), stack@[i]) && linked(gv, t, c0, stack@[i]),
        decreases unmarked(flags_of(seen)), stack@.len(),
    {
        let ghost before_pop = stack@;
        let ghost s1 = flags_of(seen);
        let p = stack.pop().unwrap();
        let ghost st1 = stack@;
        proof {
            assert(before_pop == stack@.push(p));
            assert(before_pop[before_pop.len() - 1] == p);
            assert(on_grid(p, n) && flag(flags_of(seen), p) && linked(gv, t, c0, p));
            lemma_linked_ends(gv, t, c0, p);
            assert forall|i: int| 0 <= i < stack@.len() implies on_grid(#[trigger] stack@[i], n)
                && flag(flags_of(seen), stack@[i]) && linked(gv, t, c0, stack@[i]) by {
                assert(stack@[i] == before_pop[i]);
            }
        }
        visit_neighbours(g, t, seen, &mut stack, p, Ghost(c0), Ghost(s0));
        proof {
            assert forall|c: Cell| in_region(gv, t, c) && #[trigger] flag(flags_of(seen), c) && !stack@.contains(c)
                implies closed_at(gv, t, flags_of(seen), c) by {
                if c != p {
                    assert(flag(s1, c)) by {
                        if !flag(s1, c) {
                            assert(stack@.contains(c));
                        }
                    }
                    assert(!st1.contains(c)) by {
                        if st1.contains(c) {
                            let i = choose|i: int| 0 <= i < st1.len() && st1[i] == c;
                            assert(stack@[i] == c);
                        }
                    }
                    assert(!before_pop.contains(c)) by {
                        if before_pop.contains(c) {
                            let i = choose|i: int| 0 <= i < before_pop.len() && before_pop[i] == c;
                            if i < st1.len() {
                                assert(st1[i] == c);
                            }
                        }
                    }
                    assert(closed_at(gv, t, s1, c));
                    assert forall|d: Cell| #[trigger] adjacent(c, d) && in_region(gv, t, d) implies flag(flags_of(seen), d) by {
                        assert(flag(s1, d));
                    }
                }
            }
        }
    }
}

/// Every flag is on a cell of `t` linked to a cell before `cur`.
#[verifier::opaque]
spec fn flags_linked_before(g: Seq<Seq<Terrain>>, t: Terrain, s: Seq<Seq<bool>>, cur: Cell) -> bool {
    forall|c: Cell| on_grid(c, g.len() as nat) && #[trigger] flag(s, c) ==> in_region(g, t, c)
        && exists|e: Cell| before(e, cur) && #[trigger] linked(g, t, e, c)
}

/// Every cell of `t` before `cur` is flagged.
#[verifier::opaque]
spec fn scanned_flagged(g: Seq<Seq<Terrain>>, t: Terrain, s: Seq<Seq<bool>>, cur: Cell) -> bool {
    forall|e: Cell| before(e, cur) && #[trigger] in_region(g, t, e) ==> flag(s, e)
}

/// The flags are closed under steps through `t`.
#[verifier::opaque]
spec fn flags_closed(g: Seq<Seq<Terrain>>, t: Terrain, s: Seq<Seq<bool>>) -> bool {
    forall|c: Cell| in_region(g, t, c) && #[trigger] flag(s, c) ==> closed_at(g, t, s, c)
}

/// Where a scan of the grid stands before cell `cur`: every flag is on a
/// cell of `t` linked to a cell already scanned, every scanned cell of `t`
/// is flagged, and the flags are closed under steps through `t`.
spec fn scan_state(g: Seq<Seq<Terrain>>, t: Terrain, s: Seq<Seq<bool>>, cur: Cell) -> bool {
    &&& flags_square(s, g.len() as nat)
    &&& flags_linked_before(g, t, s, cur)
    &&& scanned_flagged(g, t, s, cur)
    &&& flags_closed(g, t, s)
}

/// The end of one row is the start of the next.
proof fn lemma_scan_next_row(g: Seq<Seq<Terrain>>, t: Terrain, s: Seq<Seq<bool>>, y: usize)
    requires
        scan_state(g, t, s, (g.len() as usize, y)),
        g.len() <= MAX_SIZE,
        y < g.len(),
    ensures
        scan_state(g, t, s, (0usize, (y + 1) as usize)),
{
    reveal(flags_linked_before);
    reveal(scanned_flagged);
    let n = g.len();
    assert forall|c: Cell| on_grid(c, n as nat) && #[trigger] flag(s, c) implies in_region(g, t, c)
        && exists|e: Cell| before(e, (0usize, (y + 1) as usize)) && #[trigger] linked(g, t, e, c) by {
        let e = choose|e: Cell| before(e, (n as usize, y)) && #[trigger] linked(g, t, e, c);
        assert(before(e, (0usize, (y + 1) as usize)));
    }
    assert forall|e: Cell| before(e, (0usize, (y + 1) as usize)) && #[trigger] in_region(g, t, e) implies flag(s, e) by {
        assert(before(e, (n as usize, y)));
    }
}

/// An unflagged cell of `t` reached by the scan starts its region, and the
/// flags are as a flood from it needs them.
proof fn lemma_scan_unflagged(g: Seq<Seq<Terrain>>, t: Terrain, s: Seq<Seq<bool>>, c0: Cell)
    requires
        scan_state(g, t, s, c0),
        in_region(g, t, c0),
        !flag(s, c0),
    ensures
        first_of_region(g, t, c0),
        forall|c: Cell| on_grid(c, g.len() as nat) && #[trigger] flag(s, c) ==> in_region(g, t, c),
        forall|c: Cell| in_region(g, t, c) && #[trigger] flag(s, c) ==> closed_at(g, t, s, c),
{
    reveal(flags_linked_before);
    reveal(scanned_flagged);
    reveal(flags_closed);
    assert forall|d: Cell| #[trigger] linked(g, t, c0, d) implies !before(d, c0) by {
        if before(d, c0) {
            lemma_linked_ends(g, t, c0, d);
            assert(flag(s, d));
            lemma_linked_symmetric(g, t, c0, d);
            lemma_closed_covers(g, t, s, d, c0);
        }
    }
}

/// After the flood from the region's first cell `c0`, the scan moves past
/// `c0`.
proof fn lemma_scan_flooded(g: Seq<Seq<Terrain>>, t: Terrain, s0: Seq<Seq<bool>>, s1: Seq<Seq<bool>>, c0: Cell, next: Cell)
    requires
        scan_state(g, t, s0, c0),
        next.1 == c0.1 && next.0 == c0.0 + 1,
        flags_square(s1, g.len() as nat),
        flag(s1, c0),
        forall|c: Cell| on_grid(c, g.len() as nat) && #[trigger] flag(s0, c) ==> flag(s1, c),
        forall|c: Cell| on_grid(c, g.len() as nat) && #[trigger] flag(s1, c) ==> in_region(g, t, c)
            && (flag(s0, c) || linked(g, t, c0, c)),
        forall|c: Cell| in_region(g, t, c) && #[trigger] flag(s1, c) ==> closed_at(g, t, s1, c),
    ensures
        scan_state(g, t, s1, next),
{
    lemma_flooded_linked(g, t, s0, s1, c0, next);
    lemma_flooded_scanned(g, t, s0, s1, c0, next);
    reveal(flags_closed);
}

proof fn lemma_flooded_linked(g: Seq<Seq<Terrain>>, t: Terrain, s0: Seq<Seq<bool>>, s1: Seq<Seq<bool>>, c0: Cell, next: Cell)
    requires
        flags_linked_before(g, t, s0, c0),
        next.1 == c0.1 && next.0 == c0.0 + 1,
        forall|c: Cell| on_grid(c, g.len() as nat) && #[trigger] flag(s1, c) ==> in_region(g, t, c)
            && (flag(s0, c) || linked(g, t, c0, c)),
    ensures
        flags_linked_before(g, t, s1, next),
{
    reveal(flags_linked_before);
    let n = g.len() as nat;
    assert forall|c: Cell| on_grid(c, n) && #[trigger] flag(s1, c) implies in_region(g, t, c)
        && exists|e: Cell| before(e, next) && #[trigger] linked(g, t, e, c) by {
        if flag(s0, c) {
            let e = choose|e: Cell| before(e, c0) && #[trigger] linked(g, t, e, c);
            assert(before(e, next));
        } else {
            assert(linked(g, t, c0, c));
            assert(before(c0, next));
        }
    }
}

proof fn lemma_flooded_scanned(g: Seq<Seq<Terrain>>, t: Terrain, s0: Seq<Seq<bool>>, s1: Seq<Seq<bool>>, c0: Cell, next: Cell)
    requires
        scanned_flagged(g, t, s0, c0),
        next.1 == c0.1 && next.0 == c0.0 + 1,
        flag(s1, c0),
        forall|c: Cell| on_grid(c, g.len() as nat) && #[trigger] flag(s0, c) ==> flag(s1, c),
    ensures
        scanned_flagged(g, t, s1, next),
{
    reveal(scanned_flagged);
    assert forall|e: Cell| before(e, next) && #[trigger] in_region(g, t, e) implies flag(s1, e) by {
        if e != c0 {
            assert(before(e, c0));
            assert(flag(s0, e));
        }
    }
}

/// A cell that is not an unflagged cell of `t` starts no region, and the
/// scan moves past it with the flags unchanged.
proof fn lemma_scan_skipped(g: Seq<Seq<Terrain>>, t: Terrain, s: Seq<Seq<bool>>, c0: Cell, next: Cell)
    requires
        scan_state(g, t, s, c0),
        next.1 == c0.1 && next.0 == c0.0 + 1,
        !(in_region(g, t, c0) && !flag(s, c0)),
    ensures
        scan_state(g, t, s, next),
        !first_of_region(g, t, c0),
{
    reveal(flags_linked_before);
    reveal(scanned_flagged);
    let n = g.len() as nat;
    if in_region(g, t, c0) {
        assert(flag(s, c0));
        let e = choose|e: Cell| before(e, c0) && #[trigger] linked(g, t, e, c0);
        lemma_linked_symmetric(g, t, e, c0);
    }
    assert forall|c: Cell| on_grid(c, n) && #[trigger] flag(s, c) implies in_region(g, t, c)
        && exists|e: Cell| before(e, next) && #[trigger] linked(g, t, e, c) by {
        let e = choose|e: Cell| before(e, c0) && #[trigger] linked(g, t, e, c);
        assert(before(e, next));
    }
    assert forall|e: Cell| before(e, next) && #[trigger] in_region(g, t, e) implies flag(s, e) by {
        if e != c0 {
            assert(before(e, c0));
        }
    }
}

/// Scans cell `(x, y)`: if it starts a region of `t` not yet flagged,
/// floods that region. Returns whether it was the region's first cell.
fn scan_cell(g: &Vec<Vec<Terrain>>, t: Terrain, seen: &mut Vec<Vec<bool>>, x: usize, y: usize) -> (first: bool)
    requires
        is_square(grid_of(g), g@.len()),
        g@.len() <= MAX_SIZE,
        x < g@.len(),
        y < g@.len(),
        scan_state(grid_of(g), t, flags_of(old(seen)), (x, y)),
    ensures
        scan_state(grid_of(g), t, flags_of(final(seen)), ((x + 1) as usize, y)),
        first == first_of_region(grid_of(g), t, (x, y)),
{
    let ghost gv = grid_of(g);
    let ghost s0 = flags_of(seen);
    proof {
        assert(gv[y as int] == g@[y as int]@);
        assert(flags_of(seen)[y as int] == seen@[y as int]@);
    }
    if g[y][x] == t && !seen[y][x] {
        proof {
            lemma_scan_unflagged(gv, t, s0, (x, y));
        }
        flood(g, t, seen, (x, y));
        proof {
            lemma_scan_flooded(gv, t, s0, flags_of(seen), (x, y), ((x + 1) as usize, y));
        }
        true
    } else {
        proof {
            lemma_scan_skipped(gv, t, s0, (x, y), ((x + 1) as usize, y));
        }
        false
    }
}

/// The number of 4-connected regions of `t` in `g` (other terrain is
/// ignored): a flood fill from every cell of `t` not yet reached.
pub fn components(g: &Vec<Vec<Terrain>>, t: Terrain) -> (r: usize)
    requires
        is_square(grid_of(g), g@.len()),
        g@.len() <= MAX_SIZE,
    ensures
        r == region_count(grid_of(g), t),
{
    let size = g.len();
    let ghost gv = grid_of(g);
    let mut seen = unmarked_flags(size);
    proof {
        reveal(flags_linked_before);
        reveal(scanned_flagged);
        reveal(flags_closed);
    }
    let mut count: usize = 0;
    let mut y: usize = 0;
    while y < size
        invariant
            size == g@.len() <= MAX_SIZE,
            gv == grid_of(g),
            is_square(gv, size as nat),
            y <= size,
            scan_state(gv, t, flags_of(&seen), (0usize, y)),
            count == regions_in_rows(gv, t, y as nat),
            count <= y * size,
        decreases size - y,
    {
        let mut x: usize = 0;
        while x < size
            invariant
                size == g@.len() <= MAX_SIZE,
                gv == grid_of(g),
                is_square(gv, size as nat),
                y < size,
                x <= size,
                scan_state(gv, t, flags_of(&seen), (x, y)),
                count == regions_in_rows(gv, t, y as nat) + regions_in_row(gv, t, y as nat, x as nat),
                count <= y * size + x,
            decreases size - x,
        {
            proof {
                assert(y * size + x < size * size) by (nonlinear_arith)
                    requires y < size, x < size;
                assert(size * size <= 65535 * 65535) by (nonlinear_arith)
                    requires size <= 65535;
            }
            let first = scan_cell(g, t, &mut seen, x, y);
            if first {
                count = count + 1;
            }
            proof {
                assert(regions_in_row(gv, t, y as nat, (x + 1) as nat)
                    == regions_in_row(gv, t, y as nat, x as nat) + one_if(first_of_region(gv, t, (x, y))));
            }
            x = x + 1;
        }
        proof {
            lemma_scan_next_row(gv, t, flags_of(&seen), y);
        }
        assert((y + 1) * size == y * size + size) by (nonlinear_arith);
        y = y + 1;
    }
    count
}

/// The cells left for clustering once the village and the scatter are
/// placed.
pub open spec fn cluster_budget(spec: &Spec) -> nat {
    (capacity(spec.size as nat, spec.centre_village) - amount_total(spec.scatter@)) as nat
}

/// What holds of every grid generated for `spec`: the right shape, the
/// village at the centre when asked for, every scatter terrain at exactly
/// its count, and every clustering terrain at exactly its largest-remainder
/// quota of the cells left.
pub open spec fn generated(spec: &Spec, g: Seq<Seq<Terrain>>) -> bool {
    let mid: Cell = (spec.size / 2, spec.size / 2);
    &&& is_square(g, spec.size as nat)
    &&& spec.centre_village ==> at(g, mid) == Terrain::Village
    &&& grid_count(g, Terrain::Village) == if spec.centre_village { 1nat } else { 0nat }
    &&& forall|i: int| 0 <= i < spec.scatter@.len()
        ==> grid_count(g, (#[trigger] spec.scatter@[i]).0) == spec.scatter@[i].1
    &&& exists|q: Seq<(Terrain, usize)>| #[trigger] largest_remainder(spec.clusters@, cluster_budget(spec), q)
        && forall|i: int| 0 <= i < q.len() ==> grid_count(g, (#[trigger] q[i]).0) == q[i].1
    &&& forall|t: Terrain| t != Terrain::Village && !terrains_of(spec.clusters@).contains(t)
        && !terrains_of(spec.scatter@).contains(t) ==> #[trigger] grid_count(g, t) == 0
}

proof fn lemma_list_ok(s: Seq<(Terrain, u32)>, b: bool, i: int)
    requires
        0 <= i,
        list_error(s, b, i).is_none(),
    ensures
        forall|j: int| i <= j < s.len() ==> (#[trigger] entry_error(s, b, j)).is_none(),
    decreases s.len() - i,
{
    if i < s.len() {
        lemma_list_ok(s, b, i + 1);
    }
}

proof fn lemma_list_ok_facts(s: Seq<(Terrain, u32)>, b: bool)
    requires
        list_error(s, b, 0).is_none(),
    ensures
        terrains_of(s).no_duplicates(),
        forall|j: int| 0 <= j < s.len() ==> (if b { clustering((#[trigger] s[j]).0) } else { scattered(s[j].0) }),
{
    lemma_list_ok(s, b, 0);
    assert forall|j: int| 0 <= j < s.len() implies (if b { clustering((#[trigger] s[j]).0) } else { scattered(s[j].0) }) by {
        assert(entry_error(s, b, j).is_none());
    }
    assert forall|a: int, k: int| 0 <= a < terrains_of(s).len() && 0 <= k < terrains_of(s).len() && a != k
        implies terrains_of(s)[a] != terrains_of(s)[k] by {
        let (lo, hi) = if a < k { (a, k) } else { (k, a) };
        assert(entry_error(s, b, hi).is_none());
        assert(terrains_of(s.subrange(0, hi))[lo] == s[lo].0);
    }
}

proof fn lemma_amount_quota(s: Seq<(Terrain, u32)>, r: Seq<(Terrain, usize)>)
    requires
        r.len() == s.len(),
        forall|i: int| 0 <= i < s.len() ==> (#[trigger] r[i]).0 == s[i].0 && r[i].1 == s[i].1,
    ensures
        quota_total(r) == amount_total(s),
    decreases s.len(),
{
    if s.len() > 0 {
        assert forall|i: int| 0 <= i < s.drop_last().len() implies (#[trigger] r.drop_last()[i]).0 == s.drop_last()[i].0
            && r.drop_last()[i].1 == s.drop_last()[i].1 by {
            assert(r.drop_last()[i] == r[i]);
        }
        lemma_amount_quota(s.drop_last(), r.drop_last());
    }
}

/// The same list with `usize` counts.
fn widen(s: &Vec<(Terrain, u32)>) -> (r: Vec<(Terrain, usize)>)
    ensures
        r@.len() == s@.len(),
        forall|i: int| 0 <= i < s@.len() ==> (#[trigger] r@[i]).0 == s@[i].0 && r@[i].1 == s@[i].1,
        terrains_of(r@) == terrains_of(s@),
        quota_total(r@) == amount_total(s@),
{
    let mut r: Vec<(Terrain, usize)> = Vec::new();
    let mut i: usize = 0;
    while i < s.len()
        invariant
            i <= s@.len(),
            r@.len() == i,
            forall|k: int| 0 <= k < i ==> (#[trigger] r@[k]).0 == s@[k].0 && r@[k].1 == s@[k].1,
        decreases s.len() - i,
    {
        r.push((s[i].0, s[i].1 as usize));
        i = i + 1;
    }
    assert(terrains_of(r@) =~= terrains_of(s@));
    proof {
        lemma_amount_quota(s@, r@);
    }
    r
}

/// Every element of `b` is in `a` when they hold the same multiset.
pub(crate) proof fn lemma_same_elements(a: Seq<Cell>, b: Seq<Cell>)
    requires
        a.to_multiset() == b.to_multiset(),
    ensures
        forall|i: int| 0 <= i < b.len() ==> a.contains(#[trigger] b[i]),
        a.no_duplicates() ==> b.no_duplicates(),
{
    broadcast use vstd::seq_lib::to_multiset_contains;
    assert forall|i: int| 0 <= i < b.len() implies a.contains(#[trigger] b[i]) by {
        assert(b.contains(b[i]));
        assert(b.to_multiset().count(b[i]) > 0);
    }
    if a.no_duplicates() {
        a.lemma_multiset_has_no_duplicates();
        assert forall|x: Cell| b.to_multiset().contains(x) implies b.to_multiset().count(x) == 1 by {
            assert(a.to_multiset().contains(x));
        }
        b.lemma_multiset_has_no_duplicates_conv();
    }
}

proof fn lemma_outcome(spec: &Spec, gf: Seq<Seq<Terrain>>, sq: Seq<(Terrain, usize)>, cq: Seq<(Terrain, usize)>, cap: nat)
    requires
        spec.spec_check() is Ok,
        spec.within_limits(),
        is_square(gf, spec.size as nat),
        spec.centre_village ==> at(gf, (spec.size / 2, spec.size / 2)) == Terrain::Village,
        cap == capacity(spec.size as nat, spec.centre_village),
        sq.len() == spec.scatter@.len(),
        forall|i: int| 0 <= i < sq.len() ==> (#[trigger] sq[i]).0 == spec.scatter@[i].0 && sq[i].1 == spec.scatter@[i].1,
        terrains_of(sq) == terrains_of(spec.scatter@),
        largest_remainder(spec.clusters@, cluster_budget(spec), cq),
        forall|t: Terrain| #[trigger] grid_count(gf, t) + if t == Terrain::Deadland { cap as int } else { 0 }
            == (if t == Terrain::Deadland { (spec.size * spec.size) as int - ind(spec.centre_village) }
                else if t == Terrain::Village { ind(spec.centre_village) } else { 0 })
                + run_count(sq, t) + run_count(cq, t),
    ensures
        generated(spec, gf),
{
    lemma_list_ok_facts(spec.clusters@, true);
    lemma_list_ok_facts(spec.scatter@, false);
    assert(spec.size >= 5);
    assert(spec.size as int * spec.size as int >= 25) by (nonlinear_arith)
        requires spec.size >= 5;
    assert(cap as int == (spec.size * spec.size) as int - ind(spec.centre_village));
    assert(terrains_of(cq) =~= terrains_of(spec.clusters@));
    assert(!terrains_of(cq).contains(Terrain::Village)) by {
        if terrains_of(cq).contains(Terrain::Village) {
            let j = choose|j: int| 0 <= j < terrains_of(cq).len() && terrains_of(cq)[j] == Terrain::Village;
            assert(clustering(spec.clusters@[j].0));
        }
    }
    assert(!terrains_of(sq).contains(Terrain::Village)) by {
        if terrains_of(sq).contains(Terrain::Village) {
            let j = choose|j: int| 0 <= j < terrains_of(sq).len() && terrains_of(sq)[j] == Terrain::Village;
            assert(scattered(spec.scatter@[j].0));
        }
    }
    lemma_run_count_absent(cq, Terrain::Village);
    lemma_run_count_absent(sq, Terrain::Village);
    assert(grid_count(gf, Terrain::Village) + 0 == ind(spec.centre_village) + run_count(sq, Terrain::Village) + run_count(cq, Terrain::Village));
    assert forall|i: int| 0 <= i < spec.scatter@.len()
        implies grid_count(gf, (#[trigger] spec.scatter@[i]).0) == spec.scatter@[i].1 by {
        let t = spec.scatter@[i].0;
        assert(scattered(t));
        assert(sq[i].0 == t);
        lemma_run_count_unique(sq, i);
        assert(!terrains_of(cq).contains(t)) by {
            if terrains_of(cq).contains(t) {
                let j = choose|j: int| 0 <= j < terrains_of(cq).len() && terrains_of(cq)[j] == t;
                assert(clustering(spec.clusters@[j].0));
            }
        }
        lemma_run_count_absent(cq, t);
        assert(grid_count(gf, t) + 0 == 0 + run_count(sq, t) + run_count(cq, t));
    }
    assert forall|t: Terrain| t != Terrain::Village && !terrains_of(spec.clusters@).contains(t)
        && !terrains_of(spec.scatter@).contains(t) implies #[trigger] grid_count(gf, t) == 0 by {
        lemma_run_count_absent(sq, t);
        lemma_run_count_absent(cq, t);
        if t == Terrain::Deadland {
            assert(grid_count(gf, t) + cap as int == (spec.size * spec.size) as int - ind(spec.centre_village) + 0 + 0);
        } else {
            assert(grid_count(gf, t) + 0 == 0 + run_count(sq, t) + run_count(cq, t));
        }
    }
    assert forall|i: int| 0 <= i < cq.len() implies grid_count(gf, (#[trigger] cq[i]).0) == cq[i].1 by {
        let t = cq[i].0;
        assert(clustering(spec.clusters@[i].0));
        lemma_run_count_unique(cq, i);
        assert(!terrains_of(sq).contains(t)) by {
            if terrains_of(sq).contains(t) {
                let j = choose|j: int| 0 <= j < terrains_of(sq).len() && terrains_of(sq)[j] == t;
                assert(scattered(spec.scatter@[j].0));
            }
        }
        lemma_run_count_absent(sq, t);
        assert(grid_count(gf, t) + (if t == Terrain::Deadland { cap as int } else { 0 })
            == (if t == Terrain::Deadland { (spec.size * spec.size) as int - ind(spec.centre_village) }
                else if t == Terrain::Village { ind(spec.centre_village) } else { 0 })
                + run_count(sq, t) + run_count(cq, t));
    }
}

/// The scatter list with its counts widened.
pub open spec fn widened(s: Seq<(Terrain, u32)>) -> Seq<(Terrain, usize)> {
    s.map_values(|e: (Terrain, u32)| (e.0, e.1 as usize))
}

/// The clustered layout drawn for `spec`: the quotas `q` for the clustering
/// terrain, every free cell once in the drawn order `shuffled` (its first
/// cells take the scatter, in list order), the remaining cells reordered
/// into `layout` by recursive cuts, and `pg` the grid with the Village at
/// the centre, the scatter on its cells, and the quotas handed out in order
/// over `layout`.
pub open spec fn laid_out(spec: &Spec, q: Seq<(Terrain, usize)>, shuffled: Seq<Cell>, layout: Seq<Cell>, pg: Seq<Seq<Terrain>>) -> bool {
    let sz = spec.size as nat;
    let mid: Cell = (spec.size / 2, spec.size / 2);
    let st = amount_total(spec.scatter@) as int;
    &&& largest_remainder(spec.clusters@, cluster_budget(spec), q)
    &&& shuffled.no_duplicates()
    &&& shuffled.len() == capacity(sz, spec.centre_village)
    &&& forall|i: int| 0 <= i < shuffled.len() ==> on_grid(#[trigger] shuffled[i], sz)
        && (spec.centre_village ==> shuffled[i] != mid)
    &&& layout.to_multiset() == shuffled.skip(st).to_multiset()
    &&& guillotine(layout, positive_of(q), 0, positive_of(q).len() as int)
    &&& is_square(pg, sz)
    &&& spec.centre_village ==> at(pg, mid) == Terrain::Village
    &&& forall|i: int| 0 <= i < st ==> at(pg, #[trigger] shuffled[i]) == run_of(widened(spec.scatter@))[i]
    &&& forall|j: int| 0 <= j < layout.len() ==> at(pg, #[trigger] layout[j]) == run_of(positive_of(q))[j]
}

/// Every terrain of `active` forms a single region of `g`.
pub open spec fn whole_in(g: Seq<Seq<Terrain>>, active: Seq<(Terrain, usize)>) -> bool {
    forall|j: int| 0 <= j < active.len() ==> region_count(g, (#[trigger] active[j]).0) == 1
}

/// Some clustered layout drawn for `spec` splits a terrain.
pub open spec fn may_split(spec: &Spec) -> bool {
    exists|q: Seq<(Terrain, usize)>, shuffled: Seq<Cell>, layout: Seq<Cell>, pg: Seq<Seq<Terrain>>|
        #[trigger] laid_out(spec, q, shuffled, layout, pg) && !whole_in(pg, positive_of(q))
}

/// `g` comes from a clustered layout drawn for `spec` in which every
/// clustering terrain is one region: it is that layout at full affinity,
/// and that layout melted with some valid draws below it.
pub open spec fn grown_from(spec: &Spec, g: Seq<Seq<Terrain>>) -> bool {
    let st = amount_total(spec.scatter@) as int;
    exists|q: Seq<(Terrain, usize)>, shuffled: Seq<Cell>, layout: Seq<Cell>, pg: Seq<Seq<Terrain>>|
        #[trigger] laid_out(spec, q, shuffled, layout, pg) && whole_in(pg, positive_of(q))
        && (spec.affinity == AFFINITY_WHOLE ==> g == pg)
        && (spec.affinity < AFFINITY_WHOLE ==> exists|draws: Seq<(u64, Seq<u64>, u64)>| {
            &&& draws.len() == MELT_SWEEPS * shuffled.skip(st).len()
            &&& forall|i: int| 0 <= i < draws.len() ==> melt_draw_ok(#[trigger] draws[i], shuffled.skip(st).len() as int)
            &&& g == melt_run(pg, shuffled.skip(st), melt_disorder(spec.affinity), draws)
        })
}

/// The grid the writes of a drawn layout make is that layout laid out.
proof fn lemma_drawn_layout(spec: &Spec, q: Seq<(Terrain, usize)>, every: Seq<Cell>, shuffled: Seq<Cell>, lay: Seq<Cell>,
    g1: Seq<Seq<Terrain>>, pre_labels: Seq<Terrain>, clv: Seq<Terrain>, wcells: Seq<Cell>, wlabels: Seq<Terrain>)
    requires
        largest_remainder(spec.clusters@, cluster_budget(spec), q),
        every.no_duplicates(),
        every.len() == capacity(spec.size as nat, spec.centre_village),
        forall|i: int| 0 <= i < every.len() ==> on_grid(#[trigger] every[i], spec.size as nat)
            && (spec.centre_village ==> every[i] != (spec.size / 2, spec.size / 2)),
        forall|i: int| 0 <= i < shuffled.len() ==> every.contains(#[trigger] shuffled[i]),
        shuffled.no_duplicates(),
        shuffled.len() == every.len(),
        amount_total(spec.scatter@) <= shuffled.len(),
        lay.to_multiset() == shuffled.skip(amount_total(spec.scatter@) as int).to_multiset(),
        guillotine(lay, positive_of(q), 0, positive_of(q).len() as int),
        is_square(g1, spec.size as nat),
        spec.centre_village ==> at(g1, (spec.size / 2, spec.size / 2)) == Terrain::Village,
        pre_labels == run_of(widened(spec.scatter@)),
        pre_labels.len() == amount_total(spec.scatter@),
        clv == run_of(positive_of(q)),
        wcells == shuffled.take(amount_total(spec.scatter@) as int) + lay,
        wlabels == pre_labels + clv,
        wlabels.len() == wcells.len(),
        forall|i: int| 0 <= i < wcells.len() ==> at(g1, #[trigger] wcells[i]) == wlabels[i],
    ensures
        laid_out(spec, q, shuffled, lay, g1),
{
    let st = amount_total(spec.scatter@) as int;
    assert forall|i: int| 0 <= i < shuffled.len() implies on_grid(#[trigger] shuffled[i], spec.size as nat)
        && (spec.centre_village ==> shuffled[i] != (spec.size / 2, spec.size / 2)) by {
        assert(every.contains(shuffled[i]));
    }
    assert forall|i: int| 0 <= i < st implies at(g1, #[trigger] shuffled[i]) == run_of(widened(spec.scatter@))[i] by {
        assert(wcells[i] == shuffled[i]);
        assert(wlabels[i] == pre_labels[i]);
    }
    assert forall|j: int| 0 <= j < lay.len() implies at(g1, #[trigger] lay[j]) == run_of(positive_of(q))[j] by {
        assert(shuffled.take(st).len() == st);
        assert(wcells.len() == st + lay.len());
        assert(wcells[st + j] == lay[j]);
        assert(wlabels[st + j] == clv[j]);
        assert(at(g1, wcells[st + j]) == wlabels[st + j]);
    }
}

/// Whether every terrain of `active` forms a single region of `g`.
pub fn clusters_are_whole(g: &Vec<Vec<Terrain>>, active: &Vec<(Terrain, usize)>) -> (r: bool)
    requires
        is_square(grid_of(g), g@.len() as nat),
        g@.len() <= MAX_SIZE,
    ensures
        r == whole_in(grid_of(g), active@),
{
    let mut k: usize = 0;
    while k < active.len()
        invariant
            k <= active@.len(),
            is_square(grid_of(g), g@.len() as nat),
            g@.len() <= MAX_SIZE,
            forall|j: int| 0 <= j < k ==> region_count(grid_of(g), (#[trigger] active@[j]).0) == 1,
        decreases active.len() - k,
    {
        if components(g, active[k].0) != 1 {
            return false;
        }
        k = k + 1;
    }
    true
}

/// Generates a `size`×`size` grid: the Village dead-centre when asked for,
/// the scatter terrain sprinkled uniformly, the rest filled with the
/// clustering terrain at exactly its quota (see [`generated`]). Fails with
/// the first problem [`Spec::validate`] finds, or, at a nonzero affinity,
/// when the one-block-per-terrain layout comes out split
/// ([`GenError::CannotPlaceClusters`]).
#[verifier::spinoff_prover]
#[verifier::rlimit(100)]
pub fn generate(spec: &Spec, rng: &mut StdRng) -> (r: Result<Vec<Vec<Terrain>>, GenError>)
    requires
        spec.within_limits(),
    ensures
        match spec.spec_check() {
            Err(e) => r == Err::<Vec<Vec<Terrain>>, GenError>(e),
            Ok(_) => match r {
                Ok(g) => generated(spec, grid_of(&g))
                    && (spec.affinity > 0 ==> grown_from(spec, grid_of(&g)))
                    && (spec.affinity == AFFINITY_WHOLE ==> forall|t: Terrain| clustering(t)
                        && #[trigger] grid_count(grid_of(&g), t) > 0 ==> region_count(grid_of(&g), t) == 1),
                Err(e) => e == GenError::CannotPlaceClusters && spec.affinity > 0 && may_split(spec),
            },
        },
{
    match spec.validate() {
        Err(e) => return Err(e),
        Ok(()) => {},
    }
    proof {
        lemma_list_ok_facts(spec.clusters@, true);
        lemma_list_ok_facts(spec.scatter@, false);
        let n = spec.size as int;
        assert(n * n <= 65535 * 65535 && n * n >= 25) by (nonlinear_arith)
            requires 5 <= n <= 65535;
    }
    let size = spec.size;
    let mid = size / 2;
    let v = spec.centre_village;
    let ghost sz = size as nat;
    let scatter_total = total_of(&spec.scatter) as usize;
    let cap: usize = if v { size * size - 1 } else { size * size };
    let budget: usize = cap - scatter_total;
    assert(budget == cluster_budget(spec));
    let quotas = cluster_quotas(&spec.clusters, budget);

    let mut cells = all_cells(size, v);
    let ghost every = cells@;
    shuffle_in(rng, &mut cells);
    let ghost shuffled = cells@;
    let s_cells = cells.split_off(scatter_total);
    assert(shuffled =~= cells@ + s_cells@);
    assert(s_cells@ =~= shuffled.skip(scatter_total as int));
    let s_copy = copy_vec(&s_cells);

    let scat_q = widen(&spec.scatter);
    let scat_run = run_vec(&scat_q);

    let mut grid = filled_grid(size, Terrain::Deadland);
    proof {
        assert(grid_of(&grid)[mid as int] == grid@[mid as int]@);
        assert(grid_of(&grid)[mid as int].len() == size);
    }
    if v {
        set_cell(&mut grid, (mid, mid), Terrain::Village);
    }
    let ghost g0 = grid_of(&grid);
    proof {
        let u = Seq::new(sz, |i: int| Seq::new(sz, |j: int| Terrain::Deadland));
        assert forall|t: Terrain| #[trigger] grid_count(g0, t)
            == if t == Terrain::Deadland { (sz * sz) as int - ind(v) } else if t == Terrain::Village { ind(v) } else { 0 } by {
            lemma_grid_count_uniform(sz, sz, Terrain::Deadland, t);
            if v {
                lemma_grid_count_put(u, (mid, mid), Terrain::Village, t);
            }
        }
        assert forall|y: int| 0 <= y < sz implies (#[trigger] g0[y]).len() == sz by {
            assert(u[y].len() == sz);
        }
        assert forall|c: Cell| on_grid(c, sz) && (v ==> c != (mid, mid)) implies at(g0, c) == Terrain::Deadland by {
            assert(u[c.1 as int][c.0 as int] == Terrain::Deadland);
        }
    }

    let ghost mut lay: Seq<Cell> = Seq::empty();
    let ccells: Vec<Cell>;
    let clabels: Vec<Terrain>;
    proof {
        lemma_quota_total_split(quotas@, 0, 0, quotas@.len() as int);
        assert(quotas@.subrange(0, quotas@.len() as int) =~= quotas@);
    }
    let active = positive(&quotas);
    proof {
        lemma_positive_of(quotas@, Terrain::Deadland);
    }
    if spec.affinity == 0 {
        let mut bag = run_vec(&quotas);
        let ghost ordered = bag@;
        shuffle_in(rng, &mut bag);
        proof {
            assert forall|t: Terrain| #[trigger] row_count(bag@, t) == run_count(quotas@, t) by {
                lemma_row_count_multiset(bag@, t);
                lemma_row_count_multiset(ordered, t);
                lemma_run_of(quotas@, t);
            }
            lemma_run_of(quotas@, Terrain::Deadland);
        }
        ccells = s_cells;
        clabels = bag;
    } else {
        proof {
            assert(active@.subrange(0, active@.len() as int) =~= active@);
        }
        let layout = bisect(s_cells, &active, 0, active.len(), rng);
        proof {
            lay = layout@;
        }
        let run = run_vec(&active);
        proof {
            assert forall|t: Terrain| #[trigger] row_count(run@, t) == run_count(quotas@, t) by {
                lemma_run_of(active@, t);
                lemma_positive_of(quotas@, t);
            }
            lemma_run_of(active@, Terrain::Deadland);
        }
        ccells = layout;
        clabels = run;
    }
    assert(ccells@.to_multiset() == s_cells@.to_multiset());

    let mut wcells = cells;
    let mut wlabels = scat_run;
    let ghost pre_cells = wcells@;
    let ghost pre_labels = wlabels@;
    let mut cc = ccells;
    let mut cl = clabels;
    let ghost ccv = cc@;
    let ghost clv = cl@;
    wcells.append(&mut cc);
    wlabels.append(&mut cl);
    proof {
        vstd::seq_lib::lemma_multiset_commutative(pre_cells, ccv);
        vstd::seq_lib::lemma_multiset_commutative(pre_cells, s_cells@);
        assert(wcells@.to_multiset() == every.to_multiset());
        lemma_same_elements(every, wcells@);
        lemma_same_elements(every, shuffled);
        assert forall|i: int| 0 <= i < s_copy@.len() implies every.contains(#[trigger] s_copy@[i]) by {
            assert(s_copy@[i] == shuffled[scatter_total + i]);
        }
        assert forall|i: int| 0 <= i < wcells@.len() implies at(g0, #[trigger] wcells@[i]) == Terrain::Deadland by {
            assert(every.contains(wcells@[i]));
        }
        assert forall|i: int| 0 <= i < wcells@.len() implies on_grid(#[trigger] wcells@[i], sz) by {
            assert(every.contains(wcells@[i]));
        }
        lemma_run_of(scat_q@, Terrain::Deadland);
    }
    apply_writes(&mut grid, &wcells, &wlabels, Ghost(sz));
    let ghost g1 = grid_of(&grid);
    proof {
        assert forall|t: Terrain| #[trigger] grid_count(g1, t) + if t == Terrain::Deadland { cap as int } else { 0 }
            == grid_count(g0, t) + run_count(scat_q@, t) + run_count(quotas@, t) by {
            lemma_row_count_concat(pre_labels, clv, t);
            lemma_run_of(scat_q@, t);
        }
        if v {
            assert(!wcells@.contains((mid, mid))) by {
                if wcells@.contains((mid, mid)) {
                    let i = choose|i: int| 0 <= i < wcells@.len() && wcells@[i] == (mid, mid);
                    assert(every.contains(wcells@[i]));
                }
            }
            assert(at(g0, (mid, mid)) == Terrain::Village);
            assert(on_grid((mid, mid), sz));
            assert(at(g1, (mid, mid)) == Terrain::Village);
        }
    }

    if spec.affinity > 0 {
        assert(laid_out(spec, quotas@, shuffled, lay, g1)) by {
            let st = scatter_total as int;
            assert(scat_q@ =~= widened(spec.scatter@));
            lemma_run_of(scat_q@, Terrain::Deadland);
            assert(pre_cells =~= shuffled.take(st));
            lemma_same_elements(every, shuffled);
            lemma_drawn_layout(spec, quotas@, every, shuffled, lay, g1, pre_labels, clv, wcells@, wlabels@);
        }
        if !clusters_are_whole(&grid, &active) {
            assert(laid_out(spec, quotas@, shuffled, lay, g1) && !whole_in(g1, positive_of(quotas@)));
            return Err(GenError::CannotPlaceClusters);
        }
        if spec.affinity < AFFINITY_WHOLE {
            proof {
                assert forall|i: int| 0 <= i < s_copy@.len() implies on_grid(#[trigger] s_copy@[i], sz) by {
                    assert(every.contains(s_copy@[i]));
                }
            }
            melt(&mut grid, &s_copy, spec.affinity, rng, Ghost(sz));
            assert(grown_from(spec, grid_of(&grid))) by {
                assert(s_copy@ == shuffled.skip(scatter_total as int));
                assert(laid_out(spec, quotas@, shuffled, lay, g1));
            }
            proof {
                if v {
                    assert(!s_copy@.contains((mid, mid))) by {
                        if s_copy@.contains((mid, mid)) {
                            let i = choose|i: int| 0 <= i < s_copy@.len() && s_copy@[i] == (mid, mid);
                            assert(every.contains(s_copy@[i]));
                        }
                    }
                    assert(on_grid((mid, mid), sz));
                    assert(at(grid_of(&grid), (mid, mid)) == Terrain::Village);
                }
            }
        }
    }
    proof {
        let gf = grid_of(&grid);
        assert forall|t: Terrain| #[trigger] grid_count(gf, t) + if t == Terrain::Deadland { cap as int } else { 0 }
            == (if t == Terrain::Deadland { (sz * sz) as int - ind(v) } else if t == Terrain::Village { ind(v) } else { 0 })
                + run_count(scat_q@, t) + run_count(quotas@, t) by {
            assert(grid_count(gf, t) == grid_count(g1, t));
            assert(grid_count(g0, t) == if t == Terrain::Deadland { (sz * sz) as int - ind(v) } else if t == Terrain::Village { ind(v) } else { 0 });
        }
        lemma_outcome(spec, gf, scat_q@, quotas@, cap as nat);
        if spec.affinity == AFFINITY_WHOLE {
            assert(laid_out(spec, quotas@, shuffled, lay, g1));
            assert(gf == g1);
            assert forall|t: Terrain| clustering(t) && #[trigger] grid_count(gf, t) > 0 implies region_count(gf, t) == 1 by {
                assert(grid_count(gf, t) + if t == Terrain::Deadland { cap as int } else { 0 }
                    == (if t == Terrain::Deadland { (sz * sz) as int - ind(v) } else if t == Terrain::Village { ind(v) } else { 0 })
                        + run_count(scat_q@, t) + run_count(quotas@, t));
                assert(!terrains_of(scat_q@).contains(t)) by {
                    if terrains_of(scat_q@).contains(t) {
                        let i = choose|i: int| 0 <= i < terrains_of(scat_q@).len() && terrains_of(scat_q@)[i] == t;
                        assert(terrains_of(spec.scatter@)[i] == spec.scatter@[i].0);
                        assert(scattered(spec.scatter@[i].0));
                    }
                }
                lemma_run_count_absent(scat_q@, t);
                lemma_positive_of(quotas@, t);
                assert(terrains_of(active@).contains(t)) by {
                    if !terrains_of(active@).contains(t) {
                        lemma_run_count_absent(active@, t);
                    }
                }
                let j = choose|j: int| 0 <= j < terrains_of(active@).len() && terrains_of(active@)[j] == t;
                assert(active@[j].0 == t);
            }
        }
    }
    Ok(grid)
}

} // verus!
