use simcore::grid::BinGrid;
use simcore::pairs::{half_stencil_pairs, PairEntry};
use simcore::rng::Rng;

fn entries_for_pair(entries: &[PairEntry], p: usize, q: usize) -> Vec<PairEntry> {
    entries
        .iter()
        .copied()
        .filter(|e| (e.i == p && e.j == q) || (e.i == q && e.j == p))
        .collect()
}

#[test]
fn test_same_cell_pair_once_no_shift() {
    let coords = vec![(1, 1), (1, 1)];
    let grid = BinGrid::build(3, &coords);
    let entries = half_stencil_pairs(&grid);
    assert_eq!(entries.len(), 1);
    assert_eq!(entries[0].shift_x, 0);
    assert_eq!(entries[0].shift_y, 0);
    assert_eq!(entries_for_pair(&entries, 0, 1).len(), 1);
}

#[test]
fn test_distant_cells_no_pair() {
    let coords = vec![(0, 0), (2, 2)];
    let grid = BinGrid::build(5, &coords);
    let entries = half_stencil_pairs(&grid);
    assert!(entries.is_empty());
}

#[test]
fn test_corner_wrap_pairs_each_once_with_shifts() {
    // four particles in the four corner cells of a 4x4 grid: every pair is
    // adjacent through the wrapped edges and must be scheduled exactly once
    let coords = vec![(0, 0), (3, 3), (3, 0), (0, 3)];
    let grid = BinGrid::build(4, &coords);
    let entries = half_stencil_pairs(&grid);
    assert_eq!(entries.len(), 6);
    for p in 0..4 {
        for q in (p + 1)..4 {
            assert_eq!(entries_for_pair(&entries, p, q).len(), 1, "pair {p},{q}");
        }
    }
    // shifts carry the minimum-image correction across the wrapped edges;
    // rows wrap between 0 and 3, columns wrap between 0 and 3
    let rows = [0_i8, 3, 3, 0];
    let cols = [0_i8, 3, 0, 3];
    for e in &entries {
        let expect_y = match (rows[e.i], rows[e.j]) {
            (0, 3) => -1,
            (3, 0) => 1,
            _ => 0,
        };
        let expect_x = match (cols[e.i], cols[e.j]) {
            (0, 3) => -1,
            (3, 0) => 1,
            _ => 0,
        };
        assert_eq!(e.shift_y, expect_y, "entry {e:?}");
        assert_eq!(e.shift_x, expect_x, "entry {e:?}");
    }
}

#[test]
fn test_interior_block_pair_counts() {
    // a 3x3 block of occupied cells away from the edges: the center cell is
    // adjacent to all others; opposite corners of the block are not adjacent
    let mut coords = Vec::new();
    for r in 2..5_usize {
        for c in 2..5_usize {
            coords.push((r, c));
        }
    }
    let grid = BinGrid::build(8, &coords);
    let entries = half_stencil_pairs(&grid);
    // particle 4 sits at the block center (3,3): adjacent to all 8 others
    for q in 0..9 {
        if q != 4 {
            let found = entries_for_pair(&entries, 4, q);
            assert_eq!(found.len(), 1);
            assert_eq!(found[0].shift_x, 0);
            assert_eq!(found[0].shift_y, 0);
        }
    }
    // corner (2,2) and corner (4,4) are two cells apart: never paired
    assert!(entries_for_pair(&entries, 0, 8).is_empty());
}

fn wrap_position(x: f64, size: f64) -> f64 {
    if x >= size {
        x - size
    } else if x < 0.0 {
        x + size
    } else {
        x
    }
}

fn min_image(d: f64, size: f64) -> f64 {
    if d > size / 2.0 {
        d - size
    } else if d < -size / 2.0 {
        d + size
    } else {
        d
    }
}

/// A simple short-range repulsive pair force with cutoff `r0`: magnitude
/// `r0 - d` along the line from j to i, zero at or beyond the cutoff.
fn test_force(dx: f64, dy: f64, r0: f64) -> (f64, f64) {
    let d = (dx * dx + dy * dy).sqrt();
    if d >= r0 || d == 0.0 {
        (0.0, 0.0)
    } else {
        let mag = (r0 - d) / d;
        (mag * dx, mag * dy)
    }
}

#[test]
fn test_half_stencil_force_sum_matches_brute_force() {
    // the schedule produced by the half-stencil sweep, with its wrap
    // shifts, must accumulate the same per-particle forces as a brute-force
    // all-pairs minimum-image evaluation
    let size = 4.0_f64;
    let g = 4_usize;
    let r0 = 1.0_f64;
    let mut rng = Rng::new();
    rng.seed(99, 0);
    let n = 40;
    let mut pos = Vec::new();
    for _ in 0..n {
        let x = (2.0 - f64::from_bits(rng.uniform_bits())) * size;
        let y = (2.0 - f64::from_bits(rng.uniform_bits())) * size;
        pos.push((wrap_position(x, size), wrap_position(y, size)));
    }
    let coords: Vec<(usize, usize)> = pos.iter().map(|&(x, y)| (y as usize, x as usize)).collect();
    let grid = BinGrid::build(g, &coords);
    let entries = half_stencil_pairs(&grid);

    let mut from_entries = vec![(0.0_f64, 0.0_f64); n];
    for e in &entries {
        let (xi, yi) = pos[e.i];
        let (xj, yj) = pos[e.j];
        let dx = xi - (xj + e.shift_x as f64 * size);
        let dy = yi - (yj + e.shift_y as f64 * size);
        let (fx, fy) = test_force(dx, dy, r0);
        from_entries[e.i].0 += fx;
        from_entries[e.i].1 += fy;
        from_entries[e.j].0 -= fx;
        from_entries[e.j].1 -= fy;
    }

    let mut brute = vec![(0.0_f64, 0.0_f64); n];
    for i in 0..n {
        for j in (i + 1)..n {
            let dx = min_image(pos[i].0 - pos[j].0, size);
            let dy = min_image(pos[i].1 - pos[j].1, size);
            let (fx, fy) = test_force(dx, dy, r0);
            brute[i].0 += fx;
            brute[i].1 += fy;
            brute[j].0 -= fx;
            brute[j].1 -= fy;
        }
    }

    for i in 0..n {
        assert!((from_entries[i].0 - brute[i].0).abs() < 1e-9, "particle {i}");
        assert!((from_entries[i].1 - brute[i].1).abs() < 1e-9, "particle {i}");
    }
}
