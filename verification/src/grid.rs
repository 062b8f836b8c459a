//! Spatial binning over a periodic square domain.
//!
//! The domain is tiled by a G×G grid of cells.  A caller that knows each
//! particle's raw cell coordinates (row, column — the floor of the position
//! divided by the cell size) hands them over, and `BinGrid::build` places
//! every particle index in its cell, reducing the coordinates modulo G
//! defensively.  The grid is rebuilt from scratch for every force
//! evaluation and never updated incrementally.

use vstd::prelude::*;

verus! {

/// The row a particle with raw cell coordinates `rc` lands in, on a grid of
/// side `g`.
pub open spec fn row_of(g: int, rc: (usize, usize)) -> int {
    (rc.0 as int) % g
}

/// The column a particle with raw cell coordinates `rc` lands in.
pub open spec fn col_of(g: int, rc: (usize, usize)) -> int {
    (rc.1 as int) % g
}

/// The indices among `0 .. upto` whose coordinates land in cell `(r, c)`,
/// in increasing order.
pub open spec fn indices_in_cell(
    g: int,
    coords: Seq<(usize, usize)>,
    r: int,
    c: int,
    upto: int,
) -> Seq<usize>
    decreases upto,
{
    if upto <= 0 {
        Seq::empty()
    } else {
        let prefix = indices_in_cell(g, coords, r, c, upto - 1);
        if row_of(g, coords[upto - 1]) == r && col_of(g, coords[upto - 1]) == c {
            prefix.push((upto - 1) as usize)
        } else {
            prefix
        }
    }
}

/// Sum of a sequence of naturals.
pub open spec fn seq_total(s: Seq<nat>) -> nat
    decreases s.len(),
{
    if s.len() == 0 {
        0
    } else {
        seq_total(s.drop_last()) + s.last()
    }
}

/// The occupancy counts of one row of cells.
pub open spec fn row_counts(row: Seq<Seq<usize>>) -> Seq<nat> {
    Seq::new(row.len(), |c: int| row[c].len())
}

/// The total number of particle entries held by a grid of cells.
pub open spec fn grid_count(cells: Seq<Seq<Seq<usize>>>) -> nat {
    seq_total(Seq::new(cells.len(), |r: int| seq_total(row_counts(cells[r]))))
}

/// A G×G grid of bins; each bin holds the indices of the particles whose
/// cell coordinates land in it.
pub struct BinGrid {
    g: usize,
    cells: Vec<Vec<Vec<usize>>>,
}

impl BinGrid {
    /// The side length G of the grid.
    pub closed spec fn side(self) -> int {
        self.g as int
    }

    /// The grid contents as a sequence of rows of bins.
    pub closed spec fn cells_view(self) -> Seq<Seq<Seq<usize>>> {
        Seq::new(
            self.cells@.len(),
            |r: int| Seq::new(self.cells@[r]@.len(), |c: int| self.cells@[r]@[c]@),
        )
    }

    /// The grid has G rows of G bins each.
    pub open spec fn wf(self) -> bool {
        &&& self.side() >= 1
        &&& self.cells_view().len() == self.side()
        &&& forall|r: int|
            0 <= r < self.side() ==> (#[trigger] self.cells_view()[r]).len() == self.side()
    }

    /// Every particle index occurs in at most one position of the grid.
    pub open spec fn partitioned(self) -> bool {
        forall|r1: int, c1: int, k1: int, r2: int, c2: int, k2: int|
            0 <= r1 < self.side() && 0 <= c1 < self.side()
                && 0 <= k1 < self.cells_view()[r1][c1].len() && 0 <= r2 < self.side()
                && 0 <= c2 < self.side() && 0 <= k2 < self.cells_view()[r2][c2].len()
                && #[trigger] self.cells_view()[r1][c1][k1]
                == #[trigger] self.cells_view()[r2][c2][k2] ==> r1 == r2 && c1 == c2 && k1 == k2
    }

    /// The sum of the occupancy counts of all G² bins.
    pub open spec fn total_count(self) -> nat {
        grid_count(self.cells_view())
    }

    /// The side length, as an executable value.
    pub fn side_len(&self) -> (n: usize)
        ensures
            n == self.side(),
    {
        self.g
    }

    /// Read access to the bin at row `r`, column `c`.
    pub fn cell_ref(&self, r: usize, c: usize) -> (v: &Vec<usize>)
        requires
            self.wf(),
            r < self.side(),
            c < self.side(),
        ensures
            v@ == self.cells_view()[r as int][c as int],
    {
        proof {
            assert(self.cells@.len() == self.side());
            assert(self.cells_view()[r as int].len() == self.side());
            assert(self.cells@[r as int]@.len() == self.side());
        }
        &self.cells[r][c]
    }

    /// Distribute `coords.len()` particles over a fresh G×G grid: particle
    /// `i` is appended to the bin at row `coords[i].0 % g`, column
    /// `coords[i].1 % g`.  Each bin ends up holding exactly the indices
    /// that map to it, in increasing order, and no particle is lost or
    /// duplicated: the occupancy counts of all bins sum to the number of
    /// particles.
    pub fn build(g: usize, coords: &Vec<(usize, usize)>) -> (grid: BinGrid)
        requires
            g >= 1,
        ensures
            grid.wf(),
            grid.side() == g,
            forall|r: int, c: int|
                0 <= r < g && 0 <= c < g ==> #[trigger] grid.cells_view()[r][c]
                    == indices_in_cell(g as int, coords@, r, c, coords@.len() as int),
            grid.total_count() == coords@.len(),
            grid.partitioned(),
    {
        let mut cells: Vec<Vec<Vec<usize>>> = Vec::new();
        for r in 0..g
            invariant
                cells@.len() == r,
                forall|rr: int|
                    0 <= rr < r ==> (#[trigger] cells@[rr]@).len() == g && forall|cc: int|
                        0 <= cc < g ==> cells@[rr]@[cc]@ =~= Seq::<usize>::empty(),
        {
            let mut row: Vec<Vec<usize>> = Vec::new();
            for c in 0..g
                invariant
                    row@.len() == c,
                    forall|cc: int| 0 <= cc < c ==> (#[trigger] row@[cc]@) =~= Seq::<usize>::empty(),
            {
                row.push(Vec::new());
            }
            cells.push(row);
        }
        let mut grid = BinGrid { g, cells };
        assert forall|r: int, c: int| 0 <= r < g && 0 <= c < g implies #[trigger] grid
            .cells_view()[r][c] == indices_in_cell(g as int, coords@, r, c, 0) by {
            assert(grid.cells_view()[r][c] =~= Seq::<usize>::empty());
        }
        let n = coords.len();
        proof {
            lemma_grid_count_from_cells(grid, coords@, 0);
        }
        for i in 0..n
            invariant
                n == coords@.len(),
                grid.wf(),
                grid.side() == g,
                g >= 1,
                forall|r: int, c: int|
                    0 <= r < g && 0 <= c < g ==> #[trigger] grid.cells_view()[r][c]
                        == indices_in_cell(g as int, coords@, r, c, i as int),
                grid.total_count() == i,
        {
            let ghost before = grid;
            let rc = coords[i];
            let rr = rc.0 % g;
            let cc = rc.1 % g;
            proof {
                assert(grid.cells@.len() == g);
                assert(grid.cells_view()[rr as int].len() == g);
                assert(grid.cells@[rr as int]@.len() == g);
            }
            grid.cells[rr][cc].push(i);
            proof {
                assert(rr as int == row_of(g as int, coords@[i as int]));
                assert(cc as int == col_of(g as int, coords@[i as int]));
                assert(grid.cells@.len() == g);
                assert(grid.cells@[rr as int]@ == before.cells@[rr as int]@.update(
                    cc as int,
                    grid.cells@[rr as int]@[cc as int],
                ));
                assert(grid.cells@[rr as int]@[cc as int]@ == before.cells@[rr as int]@[
                cc as int]@.push(i));
                assert forall|r: int| 0 <= r < g implies (#[trigger] grid.cells@[r]@).len()
                    == g by {
                    if r != rr as int {
                        assert(grid.cells@[r] == before.cells@[r]);
                        assert(before.cells_view()[r].len() == g);
                    }
                }
                assert(grid.wf());
                assert forall|r: int, c: int| 0 <= r < g && 0 <= c < g implies #[trigger] grid
                    .cells_view()[r][c] == indices_in_cell(
                    g as int,
                    coords@,
                    r,
                    c,
                    i as int + 1,
                ) by {
                    assert(grid.cells_view()[r][c] == grid.cells@[r]@[c]@);
                    assert(before.cells_view()[r][c] == before.cells@[r]@[c]@);
                    if r == rr as int && c == cc as int {
                        assert(grid.cells_view()[r][c] =~= before.cells_view()[r][c].push(i));
                    } else {
                        assert(grid.cells@[r]@[c] == before.cells@[r]@[c]);
                        assert(grid.cells_view()[r][c] =~= before.cells_view()[r][c]);
                    }
                }
                lemma_grid_count_push(before, grid, rr as int, cc as int, i);
            }
        }
        proof {
            lemma_grid_partitioned(grid, coords@);
        }
        grid
    }
}

/// Every entry of `indices_in_cell(g, coords, r, c, upto)` is an index
/// below `upto` that maps to cell `(r, c)`; the entries are strictly
/// increasing; and every index below `upto` that maps to `(r, c)` occurs.
proof fn lemma_indices_in_cell_props(
    g: int,
    coords: Seq<(usize, usize)>,
    r: int,
    c: int,
    upto: int,
)
    requires
        0 <= upto <= coords.len(),
        coords.len() <= usize::MAX,
    ensures
        forall|k: int|
            0 <= k < indices_in_cell(g, coords, r, c, upto).len() ==> (
            #[trigger] indices_in_cell(g, coords, r, c, upto)[k]) < upto && row_of(
                g,
                coords[indices_in_cell(g, coords, r, c, upto)[k] as int],
            ) == r && col_of(g, coords[indices_in_cell(g, coords, r, c, upto)[k] as int]) == c,
        forall|k1: int, k2: int|
            0 <= k1 < k2 < indices_in_cell(g, coords, r, c, upto).len() ==> (
            #[trigger] indices_in_cell(g, coords, r, c, upto)[k1]) < (#[trigger] indices_in_cell(
                g,
                coords,
                r,
                c,
                upto,
            )[k2]),
        forall|p: usize|
            (p as int) < upto && row_of(g, coords[p as int]) == r && col_of(g, coords[p as int])
                == c ==> #[trigger] indices_in_cell(g, coords, r, c, upto).contains(p),
    decreases upto,
{
    if upto > 0 {
        lemma_indices_in_cell_props(g, coords, r, c, upto - 1);
        let prev = indices_in_cell(g, coords, r, c, upto - 1);
        let cur = indices_in_cell(g, coords, r, c, upto);
        let here = row_of(g, coords[upto - 1]) == r && col_of(g, coords[upto - 1]) == c;
        assert(cur == if here {
            prev.push((upto - 1) as usize)
        } else {
            prev
        });
        assert forall|k: int| 0 <= k < cur.len() implies (#[trigger] cur[k]) < upto && row_of(
            g,
            coords[cur[k] as int],
        ) == r && col_of(g, coords[cur[k] as int]) == c by {
            if k < prev.len() {
                assert(cur[k] == prev[k]);
            } else {
                assert(cur[k] == (upto - 1) as usize);
            }
        }
        assert forall|k1: int, k2: int| 0 <= k1 < k2 < cur.len() implies (#[trigger] cur[k1]) < (
        #[trigger] cur[k2]) by {
            assert(cur[k1] == prev[k1]);
            if k2 < prev.len() {
                assert(cur[k2] == prev[k2]);
            } else {
                assert(cur[k2] == (upto - 1) as usize);
                assert(prev[k1] < upto - 1);
            }
        }
        assert forall|p: usize|
            (p as int) < upto && row_of(g, coords[p as int]) == r && col_of(g, coords[p as int])
                == c implies #[trigger] cur.contains(p) by {
            if (p as int) < upto - 1 {
                assert(prev.contains(p));
                let k = choose|k: int| 0 <= k < prev.len() && prev[k] == p;
                assert(cur[k] == p);
            } else {
                assert(cur.last() == p);
            }
        }
    }
}

/// Which particles a built bin holds: exactly the indices below the
/// particle count whose coordinates land in that cell.
pub proof fn lemma_cell_membership(
    g: int,
    coords: Seq<(usize, usize)>,
    r: int,
    c: int,
    p: usize,
)
    requires
        coords.len() <= usize::MAX,
    ensures
        indices_in_cell(g, coords, r, c, coords.len() as int).contains(p) <==> ((p as int)
            < coords.len() && row_of(g, coords[p as int]) == r && col_of(g, coords[p as int]) == c),
{
    let n = coords.len() as int;
    lemma_indices_in_cell_props(g, coords, r, c, n);
    let s = indices_in_cell(g, coords, r, c, n);
    if s.contains(p) {
        let k = choose|k: int| 0 <= k < s.len() && s[k] == p;
        assert((s[k] as int) < n && row_of(g, coords[s[k] as int]) == r && col_of(
            g,
            coords[s[k] as int],
        ) == c);
    }
}

/// A grid whose bins hold exactly the index sets of `indices_in_cell` is a
/// partition: no index occurs twice.
pub proof fn lemma_grid_partitioned(grid: BinGrid, coords: Seq<(usize, usize)>)
    requires
        grid.wf(),
        coords.len() <= usize::MAX,
        forall|r: int, c: int|
            0 <= r < grid.side() && 0 <= c < grid.side() ==> #[trigger] grid.cells_view()[r][c]
                == indices_in_cell(grid.side(), coords, r, c, coords.len() as int),
    ensures
        grid.partitioned(),
{
    let g = grid.side();
    assert forall|r1: int, c1: int, k1: int, r2: int, c2: int, k2: int|
        0 <= r1 < g && 0 <= c1 < g && 0 <= k1 < grid.cells_view()[r1][c1].len() && 0 <= r2 < g && 0
            <= c2 < g && 0 <= k2 < grid.cells_view()[r2][c2].len()
            && #[trigger] grid.cells_view()[r1][c1][k1]
            == #[trigger] grid.cells_view()[r2][c2][k2] implies r1 == r2 && c1 == c2 && k1
        == k2 by {
        lemma_indices_in_cell_props(g, coords, r1, c1, coords.len() as int);
        lemma_indices_in_cell_props(g, coords, r2, c2, coords.len() as int);
        let p = grid.cells_view()[r1][c1][k1];
        assert(row_of(g, coords[p as int]) == r1 && col_of(g, coords[p as int]) == c1);
        assert(row_of(g, coords[p as int]) == r2 && col_of(g, coords[p as int]) == c2);
        if k1 < k2 {
            assert(grid.cells_view()[r1][c1][k1] < grid.cells_view()[r1][c1][k2]);
        }
        if k2 < k1 {
            assert(grid.cells_view()[r1][c1][k2] < grid.cells_view()[r1][c1][k1]);
        }
    }
}

/// Changing one element of a sequence of naturals changes the total by the
/// difference at that position.
proof fn lemma_seq_total_update(s: Seq<nat>, i: int, v: nat)
    requires
        0 <= i < s.len(),
    ensures
        seq_total(s.update(i, v)) + s[i] == seq_total(s) + v,
    decreases s.len(),
{
    if i == s.len() - 1 {
        assert(s.update(i, v).drop_last() =~= s.drop_last());
    } else {
        lemma_seq_total_update(s.drop_last(), i, v);
        assert(s.update(i, v).drop_last() =~= s.drop_last().update(i, v));
        assert(s.update(i, v).last() == s.last());
    }
}

/// An empty grid of bins holds no entries.
proof fn lemma_grid_count_from_cells(grid: BinGrid, coords: Seq<(usize, usize)>, upto: int)
    requires
        grid.wf(),
        upto == 0,
        forall|r: int, c: int|
            0 <= r < grid.side() && 0 <= c < grid.side() ==> #[trigger] grid.cells_view()[r][c]
                == indices_in_cell(grid.side(), coords, r, c, upto),
    ensures
        grid.total_count() == 0,
{
    let rows = Seq::new(
        grid.cells_view().len(),
        |r: int| seq_total(row_counts(grid.cells_view()[r])),
    );
    assert forall|r: int| 0 <= r < rows.len() implies rows[r] == 0 by {
        assert forall|c: int| 0 <= c < grid.side() implies row_counts(grid.cells_view()[r])[c]
            == 0 by {
            assert(grid.cells_view()[r][c] == indices_in_cell(grid.side(), coords, r, c, 0));
        }
        lemma_seq_total_zero(row_counts(grid.cells_view()[r]));
    }
    lemma_seq_total_zero(rows);
}

/// A sequence of zeros sums to zero.
proof fn lemma_seq_total_zero(s: Seq<nat>)
    requires
        forall|k: int| 0 <= k < s.len() ==> s[k] == 0,
    ensures
        seq_total(s) == 0,
    decreases s.len(),
{
    if s.len() > 0 {
        lemma_seq_total_zero(s.drop_last());
    }
}

/// Pushing one entry into the bin at `(rr, cc)` raises the total count by
/// exactly one.
proof fn lemma_grid_count_push(before: BinGrid, after: BinGrid, rr: int, cc: int, p: usize)
    requires
        before.wf(),
        after.wf(),
        before.side() == after.side(),
        0 <= rr < before.side(),
        0 <= cc < before.side(),
        after.cells_view()[rr][cc] == before.cells_view()[rr][cc].push(p),
        forall|r: int, c: int|
            0 <= r < before.side() && 0 <= c < before.side() && !(r == rr && c == cc)
                ==> #[trigger] after.cells_view()[r][c] == before.cells_view()[r][c],
    ensures
        after.total_count() == before.total_count() + 1,
{
    let g = before.side();
    let rows_before = Seq::new(
        before.cells_view().len(),
        |r: int| seq_total(row_counts(before.cells_view()[r])),
    );
    let rows_after = Seq::new(
        after.cells_view().len(),
        |r: int| seq_total(row_counts(after.cells_view()[r])),
    );
    assert forall|r: int| 0 <= r < g && r != rr implies rows_after[r] == rows_before[r] by {
        assert(row_counts(after.cells_view()[r]) =~= row_counts(before.cells_view()[r]));
    }
    assert(row_counts(after.cells_view()[rr]) =~= row_counts(before.cells_view()[rr]).update(
        cc,
        (before.cells_view()[rr][cc].len() + 1) as nat,
    ));
    lemma_seq_total_update(
        row_counts(before.cells_view()[rr]),
        cc,
        (before.cells_view()[rr][cc].len() + 1) as nat,
    );
    assert(rows_after =~= rows_before.update(rr, (rows_before[rr] + 1) as nat));
    lemma_seq_total_update(rows_before, rr, (rows_before[rr] + 1) as nat);
}

} // verus!
