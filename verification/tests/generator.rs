use the_bug::mapgen::generator::{bisect, cluster_quotas, clusters_are_whole, components, generate, GenError, Spec};
use the_bug::mapgen::Terrain;
use rand::rngs::StdRng;
use rand::SeedableRng;

fn count(grid: &[Vec<Terrain>], terrain: Terrain) -> usize {
    grid.iter().flatten().filter(|&&t| t == terrain).count()
}

/// A 70/30 forest-meadow map with six caves and four ruins; shares are in
/// ninths of a percent and the affinity in thousandths.
fn spec(size: usize, affinity: u32) -> Spec {
    Spec {
        size,
        clusters: vec![(Terrain::Forest, 630), (Terrain::Meadow, 270)],
        scatter: vec![(Terrain::Cave, 6), (Terrain::Ruins, 4)],
        affinity,
        centre_village: true,
    }
}

fn rng() -> StdRng {
    StdRng::seed_from_u64(0xC0FFEE)
}

/// The fraction of orthogonal neighbour pairs whose terrains differ.
fn boundary_ratio(grid: &[Vec<Terrain>]) -> f64 {
    let n = grid.len();
    let (mut unlike, mut pairs) = (0usize, 0usize);
    for r in 0..n {
        for c in 0..n {
            if c + 1 < n {
                pairs += 1;
                if grid[r][c] != grid[r][c + 1] {
                    unlike += 1;
                }
            }
            if r + 1 < n {
                pairs += 1;
                if grid[r][c] != grid[r + 1][c] {
                    unlike += 1;
                }
            }
        }
    }
    unlike as f64 / pairs as f64
}

#[test]
fn composition_is_exact() {
    let s = spec(23, 500);
    let budget = 23 * 23 - 1 - 10;
    let quotas = cluster_quotas(&s.clusters, budget);
    let grid = generate(&s, &mut rng()).unwrap();

    for (terrain, quota) in quotas {
        assert_eq!(count(&grid, terrain), quota, "{terrain:?}");
    }
    let total: usize = grid.iter().map(|r| r.len()).sum();
    assert_eq!(total, 23 * 23);
    assert_eq!(
        count(&grid, Terrain::Forest)
            + count(&grid, Terrain::Meadow)
            + count(&grid, Terrain::Cave)
            + count(&grid, Terrain::Ruins)
            + count(&grid, Terrain::Village),
        23 * 23
    );
}

#[test]
fn village_at_exact_centre() {
    for affinity in [0, 500, 1000] {
        let grid = generate(&spec(23, affinity), &mut rng()).unwrap();
        assert_eq!(grid[11][11], Terrain::Village);
        assert_eq!(count(&grid, Terrain::Village), 1);
    }
}

#[test]
fn scatter_counts_are_exact() {
    for affinity in [0, 500, 1000] {
        let grid = generate(&spec(23, affinity), &mut rng()).unwrap();
        assert_eq!(count(&grid, Terrain::Cave), 6);
        assert_eq!(count(&grid, Terrain::Ruins), 4);
    }
}

#[test]
fn scatter_is_not_clustered() {
    let mut isolated = 0;
    let trials = 8;
    for seed in 0..trials {
        let grid = generate(&spec(25, 1000), &mut StdRng::seed_from_u64(seed)).unwrap();
        if components(&grid, Terrain::Cave) >= 4 && components(&grid, Terrain::Ruins) >= 3 {
            isolated += 1;
        }
    }
    assert!(isolated >= trials - 1, "scatter terrain clustered");
}

#[test]
fn affinity_zero_is_close_to_a_plain_shuffle() {
    let grid = generate(&spec(23, 0), &mut rng()).unwrap();
    let ratio = boundary_ratio(&grid);

    let expected = 2.0 * 0.7 * 0.3;
    assert!((ratio - expected).abs() < 0.06, "boundary ratio {ratio} not near {expected}");
    assert!(components(&grid, Terrain::Forest) > 5, "forest not fragmented");
}

#[test]
fn higher_affinity_clusters_more() {
    let ratio = |a| boundary_ratio(&generate(&spec(23, a), &mut rng()).unwrap());
    let (low, mid, high) = (ratio(0), ratio(500), ratio(1000));
    assert!(low > mid, "0 ({low}) should be noisier than 500 ({mid})");
    assert!(mid > high, "500 ({mid}) should be noisier than 1000 ({high})");
}

#[test]
fn largest_remainder_always_sums_to_n() {
    // percentages times nine: shares of 900
    let cases: &[(&[u32], usize)] = &[
        (&[297, 297, 306], 529),
        (&[882, 9, 9], 400),
        (&[900, 0], 361),
        (&[450, 450], 7),
    ];
    for &(shares, n) in cases {
        let clusters: Vec<(Terrain, u32)> = shares
            .iter()
            .zip([Terrain::Forest, Terrain::Meadow, Terrain::Deadland])
            .map(|(&p, t)| (t, p))
            .collect();
        let quotas = cluster_quotas(&clusters, n);
        let sum: usize = quotas.iter().map(|&(_, q)| q).sum();
        assert_eq!(sum, n, "shares {shares:?}, n {n}");
        for (&(_, share), &(_, q)) in clusters.iter().zip(&quotas) {
            let ideal = share as f64 / 900.0 * n as f64;
            assert!((q as f64 - ideal).abs() < 1.0);
        }
    }
}

#[test]
fn deterministic_given_a_seed() {
    let a = generate(&spec(23, 600), &mut StdRng::seed_from_u64(42)).unwrap();
    let b = generate(&spec(23, 600), &mut StdRng::seed_from_u64(42)).unwrap();
    let c = generate(&spec(23, 600), &mut StdRng::seed_from_u64(43)).unwrap();
    assert_eq!(a, b);
    assert_ne!(a, c);
}

#[test]
fn bisect_handles_a_hard_three_way_split() {
    for seed in 0..6 {
        let s = Spec {
            size: 23,
            clusters: vec![(Terrain::Forest, 306), (Terrain::Meadow, 297), (Terrain::Deadland, 297)],
            scatter: vec![(Terrain::Cave, 8), (Terrain::Ruins, 4)],
            affinity: 1000,
            centre_village: true,
        };
        assert!(generate(&s, &mut StdRng::seed_from_u64(seed)).is_ok(), "seed {seed}");
    }
}

#[test]
fn affinity_one_is_a_single_component_per_terrain() {
    for seed in 0..6 {
        let grid = generate(&spec(23, 1000), &mut StdRng::seed_from_u64(seed)).unwrap();
        assert_eq!(components(&grid, Terrain::Forest), 1, "seed {seed} forest");
        assert_eq!(components(&grid, Terrain::Meadow), 1, "seed {seed} meadow");
    }
}

#[test]
fn grid_shape_and_alphabet() {
    let grid = generate(&spec(27, 500), &mut rng()).unwrap();
    assert_eq!(grid.len(), 27);
    assert!(grid.iter().all(|r| r.len() == 27));
    assert!(grid.iter().flatten().all(|t| "MFCRV.".contains(t.code())));
}

#[test]
fn rejects_bad_specs() {
    let base = spec(23, 500);

    let bad = Spec { clusters: vec![(Terrain::Forest, 630), (Terrain::Meadow, 180)], ..spec(23, 500) };
    assert!(matches!(bad.validate(), Err(GenError::PercentSum(_))));

    assert_eq!(Spec { size: 22, ..spec(23, 500) }.validate(), Err(GenError::EvenSize(22)));
    assert_eq!(Spec { size: 3, ..spec(23, 500) }.validate(), Err(GenError::TooSmall(3)));

    let village = Spec { clusters: vec![(Terrain::Village, 900)], ..spec(23, 500) };
    assert_eq!(village.validate(), Err(GenError::WrongCategory(Terrain::Village)));

    let cave_cluster = Spec { clusters: vec![(Terrain::Cave, 900)], ..spec(23, 500) };
    assert_eq!(cave_cluster.validate(), Err(GenError::WrongCategory(Terrain::Cave)));

    let forest_scatter = Spec { scatter: vec![(Terrain::Forest, 3)], ..spec(23, 500) };
    assert_eq!(forest_scatter.validate(), Err(GenError::WrongCategory(Terrain::Forest)));

    let dupe = Spec { clusters: vec![(Terrain::Forest, 450), (Terrain::Forest, 450)], ..spec(23, 500) };
    assert_eq!(dupe.validate(), Err(GenError::DuplicateTerrain(Terrain::Forest)));

    let flooded = Spec { size: 5, scatter: vec![(Terrain::Cave, 24)], ..spec(23, 500) };
    assert!(matches!(flooded.validate(), Err(GenError::ScatterTooLarge { .. })));

    assert_eq!(Spec { clusters: vec![], ..spec(23, 500) }.validate(), Err(GenError::EmptyClusters));

    assert!(base.validate().is_ok());
}

#[test]
fn components_counts_each_separate_region_once() {
    let (f, m) = (Terrain::Forest, Terrain::Meadow);
    let grid = vec![
        vec![f, f, m, f, f],
        vec![m, f, m, m, f],
        vec![m, m, m, f, f],
        vec![f, m, f, m, m],
        vec![f, m, m, m, f],
    ];
    assert_eq!(components(&grid, f), 5);
    assert_eq!(components(&grid, m), 1);
    assert_eq!(components(&grid, Terrain::Cave), 0);
}

#[test]
fn a_full_affinity_layout_is_one_region_per_terrain_whenever_it_succeeds() {
    for seed in 0..10 {
        match generate(&spec(23, 1000), &mut StdRng::seed_from_u64(seed)) {
            Ok(grid) => {
                assert_eq!(components(&grid, Terrain::Forest), 1);
                assert_eq!(components(&grid, Terrain::Meadow), 1);
            }
            Err(e) => assert_eq!(e, GenError::CannotPlaceClusters),
        }
    }
}

#[test]
fn gen_errors_read_as_messages() {
    assert_eq!(GenError::EmptyClusters.to_string(), "at least one --terrain is required");
    assert_eq!(GenError::PercentSum(899).to_string(), "cluster shares must sum to 900 (got 899)");
    assert_eq!(GenError::EvenSize(10).to_string(), "--size must be odd (got 10)");
    assert_eq!(GenError::TooSmall(3).to_string(), "--size must be at least 5 (got 3)");
    assert_eq!(
        GenError::WrongCategory(Terrain::Cave).to_string(),
        "Cave cannot be used here (clustering terrain is Meadow/Forest/Deadland, scatter is Cave/Ruins)"
    );
    assert_eq!(GenError::DuplicateTerrain(Terrain::Forest).to_string(), "Forest is listed more than once");
    assert_eq!(
        GenError::ScatterTooLarge { scatter: 30, capacity: 24 }.to_string(),
        "scatter total 30 leaves no room for clusters (capacity 24)"
    );
    assert!(GenError::CannotPlaceClusters.to_string().starts_with("could not grow contiguous clusters"));
}

#[test]
fn bisect_cuts_two_quotas_apart_along_a_line() {
    let mut cells = Vec::new();
    for y in 0..4usize {
        for x in 0..4usize {
            cells.push((x, y));
        }
    }
    let quotas = vec![(Terrain::Forest, 8usize), (Terrain::Meadow, 8usize)];
    for seed in 0..8 {
        let out = bisect(cells.clone(), &quotas, 0, 2, &mut StdRng::seed_from_u64(seed));
        let mut sorted = out.clone();
        sorted.sort();
        let mut want = cells.clone();
        want.sort();
        assert_eq!(sorted, want);
        let (a, b) = out.split_at(8);
        let xs_apart = a.iter().all(|p| b.iter().all(|q| p.0 < q.0))
            || a.iter().all(|p| b.iter().all(|q| p.0 > q.0));
        let ys_apart = a.iter().all(|p| b.iter().all(|q| p.1 < q.1))
            || a.iter().all(|p| b.iter().all(|q| p.1 > q.1));
        assert!(xs_apart || ys_apart);
    }
}

#[test]
fn a_terrain_cut_in_two_is_not_whole() {
    let f = Terrain::Forest;
    let m = Terrain::Meadow;
    let split = vec![vec![f, m, f], vec![f, m, f], vec![f, m, f]];
    assert!(!clusters_are_whole(&split, &vec![(f, 6), (m, 3)]));
    assert!(clusters_are_whole(&split, &vec![(m, 3)]));
    let joined = vec![vec![f, f, f], vec![m, m, m], vec![f, f, f]];
    assert!(!clusters_are_whole(&joined, &vec![(f, 6)]));
    let one = vec![vec![f, f, m], vec![f, m, m], vec![f, f, m]];
    assert!(clusters_are_whole(&one, &vec![(f, 5), (m, 4)]));
}
