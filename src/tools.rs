use vstd::prelude::*;

use crate::grid::{lemma_index_decomposition, lookup_index_of, SimGrid, SimGridCellType};
use crate::particles::{
    delete_marked_particles, lemma_consistent_same_lookup, lemma_removed_from, lookup_consistent,
    marked_count, removed_from,
    no_particle_in_solid, SimParticles,
};

verus! {

/// `(row, col)` is one of `cells`.
pub open spec fn listed(cells: Seq<(usize, usize)>, row: int, col: int) -> bool {
    exists|i: int| 0 <= i < cells.len() && #[trigger] cells[i].0 as int == row && cells[i].1 as int == col
}

/// Lookup index `index` belongs to one of `cells` that lies in a `rows x cols` grid.
pub open spec fn walls_cover(cells: Seq<(usize, usize)>, rows: int, cols: int, index: int) -> bool {
    exists|i: int|
        0 <= i < cells.len() && 0 <= cells[i].0 < rows && 0 <= cells[i].1 < cols && #[trigger] lookup_index_of(
            cols,
            cells[i].0 as int,
            cells[i].1 as int,
        ) == index
}

/// Marks the particles whose cached cell is covered by `cells`.
pub open spec fn wall_mask(lk: Seq<usize>, cells: Seq<(usize, usize)>, rows: int, cols: int) -> Seq<bool> {
    Seq::new(lk.len(), |h: int| walls_cover(cells, rows, cols, lk[h] as int))
}

/// Turns each listed grid cell Solid and deletes the particles inside those cells, as
/// `delete_marked_particles` does; listed cells outside the grid are ignored. Returns how many
/// particles were deleted.
pub fn add_wall_cells<T>(grid: &mut SimGrid, parts: &mut SimParticles<T>, cells: &Vec<(usize, usize)>) -> (r: usize)
    requires
        lookup_consistent(old(grid), old(parts)),
    ensures
        lookup_consistent(final(grid), final(parts)),
        final(grid).dimensions == old(grid).dimensions,
        final(grid).cell_size == old(grid).cell_size,
        forall|row: int, col: int|
            old(grid).in_grid(row, col) ==> #[trigger] final(grid).type_at(row, col) == if listed(cells@, row, col) {
                SimGridCellType::Solid
            } else {
                old(grid).type_at(row, col)
            },
        r == marked_count(wall_mask(old(parts).lookup_index@, cells@, old(grid).rows(), old(grid).cols()), 0),
        final(parts).count() == old(parts).count() - r,
        final(parts).data@ == removed_from(
            old(parts).data@,
            wall_mask(old(parts).lookup_index@, cells@, old(grid).rows(), old(grid).cols()),
            0,
        ),
        final(parts).lookup_index@ == removed_from(
            old(parts).lookup_index@,
            wall_mask(old(parts).lookup_index@, cells@, old(grid).rows(), old(grid).cols()),
            0,
        ),
        forall|h: int|
            0 <= h < final(parts).count() ==> !walls_cover(
                cells@,
                old(grid).rows(),
                old(grid).cols(),
                #[trigger] final(parts).cell_of(h),
            ),
        no_particle_in_solid(old(grid), old(parts)) ==> no_particle_in_solid(final(grid), final(parts)),
{
    let ghost g0 = *grid;
    let rows = grid.dimensions.0 as usize;
    let cols = grid.dimensions.1 as usize;
    let mut i: usize = 0;
    while i < cells.len()
        invariant
            grid.wf(),
            g0.wf(),
            rows == g0.rows(),
            cols == g0.cols(),
            lookup_consistent(&g0, &*parts),
            *parts == *old(parts),
            g0 == *old(grid),
            grid.dimensions == g0.dimensions,
            grid.cell_size == g0.cell_size,
            grid.spatial_lookup == g0.spatial_lookup,
            i <= cells@.len(),
            forall|row: int, col: int|
                g0.in_grid(row, col) ==> #[trigger] grid.type_at(row, col) == if listed(
                    cells@.subrange(0, i as int),
                    row,
                    col,
                ) {
                    SimGridCellType::Solid
                } else {
                    g0.type_at(row, col)
                },
        decreases cells@.len() - i,
    {
        let (row, col) = cells[i];
        let ghost before = *grid;
        let _ = grid.set_grid_cell_type(row, col, SimGridCellType::Solid);
        proof {
            assert forall|rr: int, cc: int| g0.in_grid(rr, cc) implies #[trigger] grid.type_at(rr, cc)
                == if listed(cells@.subrange(0, i as int + 1), rr, cc) {
                SimGridCellType::Solid
            } else {
                g0.type_at(rr, cc)
            } by {
                let s1 = cells@.subrange(0, i as int + 1);
                let s0 = cells@.subrange(0, i as int);
                assert(grid.type_at(rr, cc) == grid.types()[rr][cc]);
                assert(before.type_at(rr, cc) == before.types()[rr][cc]);
                if listed(s1, rr, cc) {
                    let k = choose|k: int| 0 <= k < s1.len() && #[trigger] s1[k].0 as int == rr && s1[k].1 as int == cc;
                    if k < i {
                        assert(s0[k] == s1[k]);
                    }
                }
                if listed(s0, rr, cc) {
                    let k = choose|k: int| 0 <= k < s0.len() && #[trigger] s0[k].0 as int == rr && s0[k].1 as int == cc;
                    assert(s1[k] == s0[k]);
                }
                if rr == row && cc == col {
                    assert(s1[i as int] == (row, col));
                }
            }
        }
        i += 1;
    }
    proof {
        assert(cells@.subrange(0, i as int) =~= cells@);
        lemma_consistent_same_lookup(&g0, &*grid, &*parts);
    }
    let n = parts.lookup_index.len();
    let mut doomed: Vec<bool> = Vec::new();
    let mut h: usize = 0;
    while h < n
        invariant
            n == parts.lookup_index@.len(),
            rows == g0.rows(),
            cols == g0.cols(),
            g0.wf(),
            h <= n,
            doomed@ == wall_mask(parts.lookup_index@, cells@, rows as int, cols as int).subrange(0, h as int),
        decreases n - h,
    {
        let index = parts.lookup_index[h];
        let mut covered = false;
        let mut k: usize = 0;
        while k < cells.len()
            invariant
                rows == g0.rows(),
                cols == g0.cols(),
                g0.wf(),
                k <= cells@.len(),
                covered == exists|j: int|
                    0 <= j < k && 0 <= cells@[j].0 < rows && 0 <= cells@[j].1 < cols && #[trigger] lookup_index_of(
                        cols as int,
                        cells@[j].0 as int,
                        cells@[j].1 as int,
                    ) == index as int,
            decreases cells@.len() - k,
        {
            let (row, col) = cells[k];
            if row < rows && col < cols {
                proof {
                    crate::grid::lemma_lookup_index_bounds(rows as int, cols as int, row as int, col as int);
                    crate::grid::lemma_cell_count_fits(rows as int, cols as int);
                }
                if row * cols + col == index {
                    covered = true;
                }
            }
            proof {
                if covered && !(exists|j: int|
                    0 <= j < k && 0 <= cells@[j].0 < rows && 0 <= cells@[j].1 < cols && #[trigger] lookup_index_of(
                        cols as int,
                        cells@[j].0 as int,
                        cells@[j].1 as int,
                    ) == index as int) {
                    assert(cells@[k as int] == (row, col));
                }
            }
            k += 1;
        }
        doomed.push(covered);
        h += 1;
        proof {
            assert(doomed@ =~= wall_mask(parts.lookup_index@, cells@, rows as int, cols as int).subrange(0, h as int));
        }
    }
    proof {
        assert(doomed@ =~= wall_mask(parts.lookup_index@, cells@, rows as int, cols as int));
    }
    let ghost lk0 = parts.lookup_index@;
    let ghost g1 = *grid;
    let removed = delete_marked_particles(grid, parts, &doomed);
    proof {
        assert forall|rr: int, cc: int| g0.in_grid(rr, cc) implies #[trigger] grid.type_at(rr, cc)
            == if listed(cells@, rr, cc) {
            SimGridCellType::Solid
        } else {
            g0.type_at(rr, cc)
        } by {
            assert(g1.type_at(rr, cc) == grid.type_at(rr, cc));
        }
        lemma_removed_from(lk0, doomed@, 0);
        assert forall|h: int| 0 <= h < parts.count() implies !walls_cover(
            cells@,
            g0.rows(),
            g0.cols(),
            #[trigger] parts.cell_of(h),
        ) by {
            let j = choose|j: int| 0 <= j < lk0.len() && !doomed@[j] && #[trigger] removed_from(lk0, doomed@, 0)[h] == lk0[j];
            assert(parts.lookup_index@[h] == lk0[j]);
        }
        if no_particle_in_solid(old(grid), old(parts)) {
            assert forall|h: int| 0 <= h < parts.count() implies #[trigger] grid.types()[parts.cell_of(h)
                / grid.cols()][parts.cell_of(h) % grid.cols()] != SimGridCellType::Solid by {
                let j = choose|j: int| 0 <= j < lk0.len() && !doomed@[j] && #[trigger] removed_from(lk0, doomed@, 0)[h] == lk0[j];
                assert(parts.lookup_index@[h] == lk0[j]);
                let b = parts.cell_of(h);
                assert(old(parts).cell_of(j) == b);
                assert(g0.types()[old(parts).cell_of(j) / g0.cols()][old(parts).cell_of(j) % g0.cols()]
                    != SimGridCellType::Solid);
                assert(0 <= b < grid.cell_count());
                lemma_index_decomposition(grid.rows(), grid.cols(), b);
                let rr = b / grid.cols();
                let cc = b % grid.cols();
                assert(grid.type_at(rr, cc) == grid.types()[rr][cc]);
                assert(g0.type_at(rr, cc) == g0.types()[rr][cc]);
                assert(g0.in_grid(rr, cc));
                assert(!walls_cover(cells@, g0.rows(), g0.cols(), parts.cell_of(h)));
                if listed(cells@, rr, cc) {
                    let k = choose|k: int| 0 <= k < cells@.len() && #[trigger] cells@[k].0 as int == rr
                        && cells@[k].1 as int == cc;
                    assert(lookup_index_of(g0.cols(), cells@[k].0 as int, cells@[k].1 as int) == b);
                    assert(walls_cover(cells@, g0.rows(), g0.cols(), b));
                } else {
                    assert(grid.type_at(rr, cc) == g0.type_at(rr, cc));
                }
            }
        }
    }
    removed
}

/// Turns each listed grid cell to Air; listed cells outside the grid are ignored.
pub fn remove_wall_cells(grid: &mut SimGrid, cells: &Vec<(usize, usize)>)
    requires
        old(grid).wf(),
    ensures
        final(grid).wf(),
        final(grid).dimensions == old(grid).dimensions,
        final(grid).cell_size == old(grid).cell_size,
        final(grid).spatial_lookup == old(grid).spatial_lookup,
        forall|row: int, col: int|
            old(grid).in_grid(row, col) ==> #[trigger] final(grid).type_at(row, col) == if listed(cells@, row, col) {
                SimGridCellType::Air
            } else {
                old(grid).type_at(row, col)
            },
{
    let mut i: usize = 0;
    while i < cells.len()
        invariant
            grid.wf(),
            old(grid).wf(),
            grid.dimensions == old(grid).dimensions,
            grid.cell_size == old(grid).cell_size,
            grid.spatial_lookup == old(grid).spatial_lookup,
            i <= cells@.len(),
            forall|row: int, col: int|
                old(grid).in_grid(row, col) ==> #[trigger] grid.type_at(row, col) == if listed(
                    cells@.subrange(0, i as int),
                    row,
                    col,
                ) {
                    SimGridCellType::Air
                } else {
                    old(grid).type_at(row, col)
                },
        decreases cells@.len() - i,
    {
        let (row, col) = cells[i];
        let ghost g0 = *grid;
        let _ = grid.set_grid_cell_type(row, col, SimGridCellType::Air);
        proof {
            assert forall|rr: int, cc: int| old(grid).in_grid(rr, cc) implies #[trigger] grid.type_at(rr, cc)
                == if listed(cells@.subrange(0, i as int + 1), rr, cc) {
                SimGridCellType::Air
            } else {
                old(grid).type_at(rr, cc)
            } by {
                let s1 = cells@.subrange(0, i as int + 1);
                let s0 = cells@.subrange(0, i as int);
                assert(grid.type_at(rr, cc) == grid.types()[rr][cc]);
                assert(g0.type_at(rr, cc) == g0.types()[rr][cc]);
                if listed(s1, rr, cc) {
                    let k = choose|k: int| 0 <= k < s1.len() && #[trigger] s1[k].0 as int == rr && s1[k].1 as int == cc;
                    if k < i {
                        assert(s0[k] == s1[k]);
                    }
                }
                if listed(s0, rr, cc) {
                    let k = choose|k: int| 0 <= k < s0.len() && #[trigger] s0[k].0 as int == rr && s0[k].1 as int == cc;
                    assert(s1[k] == s0[k]);
                }
                if rr == row && cc == col {
                    assert(s1[i as int] == (row, col));
                }
            }
        }
        i += 1;
    }
    proof {
        assert(cells@.subrange(0, i as int) =~= cells@);
    }
}

} // verus!
