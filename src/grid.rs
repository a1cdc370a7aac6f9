use vstd::prelude::*;

use crate::error::Error;

verus! {

/// Classification of a grid cell.
#[derive(Clone, Copy, Debug, PartialEq, Eq, Structural)]
pub enum SimGridCellType {
    Solid,
    Fluid,
    Air,
}

/// Wall side to which a faucet or drain is attached.
#[derive(Clone, Copy, Debug, PartialEq, Eq, Structural)]
pub enum SimSurfaceDirection {
    North,
    South,
    East,
    West,
}

/// The discrete part of the MAC grid: `rows x cols` square cells of edge `cell_size`,
/// a classification per cell, and a spatial lookup that maps each cell's lookup index
/// (`row * cols + col`) to the handles of the particles inside that cell.
///
/// Rows grow downward and columns rightward; world `y` grows upward, so the top row
/// touches `y = rows * cell_size`.
pub struct SimGrid {
    /// `(rows, cols)`.
    pub dimensions: (u16, u16),
    pub cell_size: u16,
    pub cell_type: Vec<Vec<SimGridCellType>>,
    pub spatial_lookup: Vec<Vec<usize>>,
}

/// Lookup index of cell `(row, col)` in a grid with `cols` columns.
pub open spec fn lookup_index_of(cols: int, row: int, col: int) -> int {
    row * cols + col
}

/// `v` clamped into `[lo, hi]`.
pub open spec fn clamp_int(v: int, lo: int, hi: int) -> int {
    if v < lo {
        lo
    } else if v > hi {
        hi
    } else {
        v
    }
}

impl SimGrid {
    pub open spec fn rows(&self) -> int {
        self.dimensions.0 as int
    }

    pub open spec fn cols(&self) -> int {
        self.dimensions.1 as int
    }

    pub open spec fn cell_count(&self) -> int {
        self.rows() * self.cols()
    }

    /// Shapes agree with the dimensions, and the grid is not empty.
    pub open spec fn wf(&self) -> bool {
        &&& self.rows() >= 1
        &&& self.cols() >= 1
        &&& self.cell_size >= 1
        &&& self.cell_type@.len() == self.rows()
        &&& forall|r: int| 0 <= r < self.rows() ==> #[trigger] self.cell_type@[r]@.len() == self.cols()
        &&& self.spatial_lookup@.len() == self.cell_count()
    }

    pub open spec fn in_grid(&self, row: int, col: int) -> bool {
        0 <= row < self.rows() && 0 <= col < self.cols()
    }

    pub open spec fn type_at(&self, row: int, col: int) -> SimGridCellType {
        self.cell_type@[row]@[col]
    }

    /// The cell types as a plain table.
    pub open spec fn types(&self) -> Seq<Seq<SimGridCellType>> {
        Seq::new(self.cell_type@.len(), |r: int| self.cell_type@[r]@)
    }

    /// The spatial lookup as a plain table.
    pub open spec fn buckets(&self) -> Seq<Seq<usize>> {
        Seq::new(self.spatial_lookup@.len(), |i: int| self.spatial_lookup@[i]@)
    }

    pub open spec fn bucket(&self, index: int) -> Seq<usize> {
        self.spatial_lookup@[index]@
    }

    /// 0 for a Solid cell or a cell outside the grid, 1 for Fluid or Air.
    pub open spec fn cell_type_value(&self, row: int, col: int) -> u8 {
        if !self.in_grid(row, col) {
            0
        } else if self.type_at(row, col) == SimGridCellType::Solid {
            0
        } else {
            1
        }
    }

    /// A grid of `rows x cols` Air cells with empty lookup buckets.
    pub open spec fn is_blank(&self, rows: u16, cols: u16, cell_size: u16) -> bool {
        &&& self.wf()
        &&& self.dimensions == (rows, cols)
        &&& self.cell_size == cell_size
        &&& forall|r: int, c: int|
            0 <= r < rows && 0 <= c < cols ==> #[trigger] self.type_at(r, c) == SimGridCellType::Air
        &&& forall|i: int| 0 <= i < self.cell_count() ==> (#[trigger] self.bucket(i)).len() == 0
    }

    /// Builds a blank grid; refuses a zero dimension or cell size.
    pub fn new(rows: u16, cols: u16, cell_size: u16) -> (r: Result<SimGrid, Error>)
        ensures
            r is Err <==> (rows == 0 || cols == 0 || cell_size == 0),
            r is Err ==> r->Err_0.is_grid_size(),
            r is Ok ==> r->Ok_0.is_blank(rows, cols, cell_size),
    {
        if rows == 0 || cols == 0 || cell_size == 0 {
            return Err(Error::GridSizeError("Grid dimensions and cell size must be positive."));
        }
        let cell_type = blank_cell_types(rows as usize, cols as usize);
        proof {
            lemma_cell_count_fits(rows as int, cols as int);
        }
        let count: usize = rows as usize * cols as usize;
        let spatial_lookup = empty_buckets(count);
        Ok(SimGrid { dimensions: (rows, cols), cell_size, cell_type, spatial_lookup })
    }

    /// Sets the type of cell `(row, col)`; fails without change outside the grid.
    pub fn set_grid_cell_type(&mut self, row: usize, col: usize, cell_type: SimGridCellType) -> (r:
        Result<(), Error>)
        requires
            old(self).wf(),
        ensures
            final(self).wf(),
            r is Err <==> !old(self).in_grid(row as int, col as int),
            r is Err ==> r->Err_0.is_out_of_bounds() && *final(self) == *old(self),
            r is Ok ==> final(self).types() == old(self).types().update(
                row as int,
                old(self).types()[row as int].update(col as int, cell_type),
            ),
            final(self).dimensions == old(self).dimensions,
            final(self).cell_size == old(self).cell_size,
            final(self).spatial_lookup == old(self).spatial_lookup,
    {
        if row >= self.dimensions.0 as usize {
            return Err(Error::OutOfGridBounds("Row is out of bounds!"));
        }
        if col >= self.dimensions.1 as usize {
            return Err(Error::OutOfGridBounds("Column is out of bounds!"));
        }
        self.cell_type[row][col] = cell_type;
        proof {
            assert(self.types() =~= old(self).types().update(
                row as int,
                old(self).types()[row as int].update(col as int, cell_type),
            ));
        }
        Ok(())
    }

    /// Collision value of a cell: 0 if Solid or outside the grid, 1 if Fluid or Air.
    pub fn get_cell_type_value(&self, cell_row: usize, cell_col: usize) -> (r: u8)
        requires
            self.wf(),
        ensures
            r == self.cell_type_value(cell_row as int, cell_col as int),
    {
        if cell_row >= self.dimensions.0 as usize || cell_col >= self.dimensions.1 as usize {
            return 0;
        }
        match self.cell_type[cell_row][cell_col] {
            SimGridCellType::Solid => 0,
            SimGridCellType::Fluid => 1,
            SimGridCellType::Air => 1,
        }
    }

    /// Index of cell `(row, col)` in the spatial lookup.
    pub fn get_lookup_index(&self, row: usize, col: usize) -> (r: usize)
        requires
            self.wf(),
            self.in_grid(row as int, col as int),
        ensures
            r == lookup_index_of(self.cols(), row as int, col as int),
            r < self.cell_count(),
    {
        proof {
            lemma_lookup_index_bounds(self.rows(), self.cols(), row as int, col as int);
            lemma_cell_count_fits(self.rows(), self.cols());
        }
        row * (self.dimensions.1 as usize) + col
    }

    /// Whether `(row, col)` names a cell of the grid.
    pub fn are_coordinates_within_grid(&self, row: i32, col: i32) -> (r: bool)
        ensures
            r == self.in_grid(row as int, col as int),
    {
        row >= 0 && col >= 0 && (row as i64) < self.dimensions.0 as i64 && (col as i64)
            < self.dimensions.1 as i64
    }

    /// The grid cell closest to the possibly outside cell `(row, col)`.
    pub fn clamp_cell_coordinates(&self, row: i32, col: i32) -> (r: (usize, usize))
        requires
            self.wf(),
        ensures
            r.0 == clamp_int(row as int, 0, self.rows() - 1),
            r.1 == clamp_int(col as int, 0, self.cols() - 1),
            self.in_grid(r.0 as int, r.1 as int),
    {
        let max_row: i32 = self.dimensions.0 as i32 - 1;
        let max_col: i32 = self.dimensions.1 as i32 - 1;
        let r: i32 = if row < 0 {
            0
        } else if row > max_row {
            max_row
        } else {
            row
        };
        let c: i32 = if col < 0 {
            0
        } else if col > max_col {
            max_col
        } else {
            col
        };
        (r as usize, c as usize)
    }
}

/// A grid of `u16` dimensions has at most `u32::MAX` cells.
pub proof fn lemma_cell_count_fits(rows: int, cols: int)
    requires
        0 <= rows <= u16::MAX,
        0 <= cols <= u16::MAX,
    ensures
        0 <= rows * cols <= u32::MAX,
{
    assert(0 <= rows * cols <= 65535 * 65535) by (nonlinear_arith)
        requires
            0 <= rows <= 65535,
            0 <= cols <= 65535,
    ;
}

impl SimGrid {
    /// Appends `particle_id` to bucket `lookup_index`; does nothing for an index outside the
    /// lookup.
    pub fn add_particle_to_lookup(&mut self, particle_id: usize, lookup_index: usize)
        requires
            old(self).wf(),
        ensures
            final(self).wf(),
            final(self).dimensions == old(self).dimensions,
            final(self).cell_size == old(self).cell_size,
            final(self).cell_type == old(self).cell_type,
            lookup_index < old(self).cell_count() ==> final(self).buckets() == old(self).buckets().update(
                lookup_index as int,
                old(self).bucket(lookup_index as int).push(particle_id),
            ),
            lookup_index >= old(self).cell_count() ==> *final(self) == *old(self),
    {
        if lookup_index >= self.spatial_lookup.len() {
            return ;
        }
        self.spatial_lookup[lookup_index].push(particle_id);
        proof {
            assert(self.spatial_lookup@.len() == old(self).spatial_lookup@.len());
            assert(self.buckets() =~= old(self).buckets().update(
                lookup_index as int,
                old(self).bucket(lookup_index as int).push(particle_id),
            ));
        }
    }

    /// Removes the first occurrence of `particle_id` from bucket `lookup_index` by moving the
    /// bucket's last entry into its place; does nothing if the index is outside the lookup or
    /// the id is not in that bucket.
    pub fn remove_particle_from_lookup(&mut self, particle_id: usize, lookup_index: usize)
        requires
            old(self).wf(),
        ensures
            final(self).wf(),
            final(self).dimensions == old(self).dimensions,
            final(self).cell_size == old(self).cell_size,
            final(self).cell_type == old(self).cell_type,
            !(lookup_index < old(self).cell_count() && old(self).bucket(
                lookup_index as int,
            ).contains(particle_id)) ==> *final(self) == *old(self),
            lookup_index < old(self).cell_count() && old(self).bucket(lookup_index as int).contains(
                particle_id,
            ) ==> exists|k: int|
                #![trigger old(self).bucket(lookup_index as int)[k]]
                is_first_occurrence(old(self).bucket(lookup_index as int), k, particle_id)
                    && final(self).buckets() == old(self).buckets().update(
                    lookup_index as int,
                    swap_removed(old(self).bucket(lookup_index as int), k),
                ),
    {
        if lookup_index >= self.spatial_lookup.len() {
            return ;
        }
        let k = self.first_position_in_bucket(particle_id, lookup_index);
        if k < self.spatial_lookup[lookup_index].len() {
            self.spatial_lookup[lookup_index].swap_remove(k);
            proof {
                assert(old(self).bucket(lookup_index as int).contains(particle_id));
                assert(self.spatial_lookup@.len() == old(self).spatial_lookup@.len());
                assert(self.buckets() =~= old(self).buckets().update(
                    lookup_index as int,
                    swap_removed(old(self).bucket(lookup_index as int), k as int),
                ));
            }
        }
    }

    /// Position of the first occurrence of `id` in bucket `lookup_index`, or the bucket's
    /// length if it does not occur.
    fn first_position_in_bucket(&self, id: usize, lookup_index: usize) -> (k: usize)
        requires
            self.wf(),
            lookup_index < self.cell_count(),
        ensures
            k <= self.bucket(lookup_index as int).len(),
            k < self.bucket(lookup_index as int).len() ==> is_first_occurrence(
                self.bucket(lookup_index as int),
                k as int,
                id,
            ),
            k == self.bucket(lookup_index as int).len() ==> !self.bucket(lookup_index as int).contains(id),
    {
        let bucket = &self.spatial_lookup[lookup_index];
        let mut k: usize = 0;
        while k < bucket.len()
            invariant
                bucket@ == self.bucket(lookup_index as int),
                k <= bucket@.len(),
                forall|j: int| 0 <= j < k ==> bucket@[j] != id,
            decreases bucket@.len() - k,
        {
            if bucket[k] == id {
                return k;
            }
            k += 1;
        }
        k
    }

    /// Replaces the first occurrence of `from` in bucket `lookup_index` by `to`.
    pub(crate) fn rename_in_lookup(&mut self, from: usize, to: usize, lookup_index: usize)
        requires
            old(self).wf(),
            lookup_index < old(self).cell_count(),
            old(self).bucket(lookup_index as int).contains(from),
        ensures
            final(self).wf(),
            final(self).dimensions == old(self).dimensions,
            final(self).cell_size == old(self).cell_size,
            final(self).cell_type == old(self).cell_type,
            exists|k: int|
                #![trigger old(self).bucket(lookup_index as int)[k]]
                is_first_occurrence(old(self).bucket(lookup_index as int), k, from)
                    && final(self).buckets() == old(self).buckets().update(
                    lookup_index as int,
                    old(self).bucket(lookup_index as int).update(k, to),
                ),
    {
        let k = self.first_position_in_bucket(from, lookup_index);
        self.spatial_lookup[lookup_index].set(k, to);
        proof {
            assert(self.spatial_lookup@.len() == old(self).spatial_lookup@.len());
            assert(self.buckets() =~= old(self).buckets().update(
                lookup_index as int,
                old(self).bucket(lookup_index as int).update(k as int, to),
            ));
        }
    }

    /// The particles currently in bucket `lookup_index`; empty for an index outside the lookup.
    pub fn get_particles_in_lookup(&self, lookup_index: usize) -> (r: Vec<usize>)
        requires
            self.wf(),
        ensures
            lookup_index < self.cell_count() ==> r@ == self.bucket(lookup_index as int),
            lookup_index >= self.cell_count() ==> r@.len() == 0,
    {
        if lookup_index >= self.spatial_lookup.len() {
            return Vec::new();
        }
        let bucket = &self.spatial_lookup[lookup_index];
        let mut out: Vec<usize> = Vec::new();
        let mut k: usize = 0;
        while k < bucket.len()
            invariant
                bucket@ == self.bucket(lookup_index as int),
                k <= bucket@.len(),
                out@ == bucket@.subrange(0, k as int),
            decreases bucket@.len() - k,
        {
            out.push(bucket[k]);
            k += 1;
            proof {
                assert(out@ =~= bucket@.subrange(0, k as int));
            }
        }
        proof {
            assert(out@ =~= bucket@);
        }
        out
    }
}

/// The label a cell receives from `label_cells`.
pub open spec fn labeled_type(t: SimGridCellType, occupied: bool) -> SimGridCellType {
    if t == SimGridCellType::Solid {
        SimGridCellType::Solid
    } else if occupied {
        SimGridCellType::Fluid
    } else {
        SimGridCellType::Air
    }
}

/// The cell table after labelling against the buckets of a grid with `cols` columns.
pub open spec fn labeled_types(
    types: Seq<Seq<SimGridCellType>>,
    buckets: Seq<Seq<usize>>,
    cols: int,
) -> Seq<Seq<SimGridCellType>> {
    Seq::new(
        types.len(),
        |r: int|
            Seq::new(
                types[r].len(),
                |c: int| labeled_type(types[r][c], buckets[lookup_index_of(cols, r, c)].len() > 0),
            ),
    )
}

/// Whether `(row, col)` lies on the outermost ring of a `rows x cols` grid.
pub open spec fn on_edge(rows: int, cols: int, row: int, col: int) -> bool {
    row == 0 || row == rows - 1 || col == 0 || col == cols - 1
}

/// One row of a neighbourhood: the centre `i`, then its left and right neighbours when they
/// exist.
pub open spec fn side_of(i: usize, has_left: bool, has_right: bool) -> Seq<usize> {
    seq![i] + (if has_left {
        seq![(i - 1) as usize]
    } else {
        Seq::empty()
    }) + (if has_right {
        seq![(i + 1) as usize]
    } else {
        Seq::empty()
    })
}

/// Lookup indices of the cells around `index` that exist, without wrapping across the left
/// or right border: the cell's own row (itself, left, right), then the row above and the row
/// below in the same order.
pub open spec fn neighbor_cells(rows: int, cols: int, index: usize) -> Seq<usize> {
    let row = index as int / cols;
    let has_left = index as int % cols > 0;
    let has_right = index as int % cols < cols - 1;
    side_of(index, has_left, has_right) + (if row > 0 {
        side_of((index - cols) as usize, has_left, has_right)
    } else {
        Seq::empty()
    }) + (if row < rows - 1 {
        side_of((index + cols) as usize, has_left, has_right)
    } else {
        Seq::empty()
    })
}

/// The buckets named by `cells`, concatenated in order.
pub open spec fn concat_buckets(buckets: Seq<Seq<usize>>, cells: Seq<usize>) -> Seq<usize>
    decreases cells.len(),
{
    if cells.len() == 0 {
        Seq::empty()
    } else {
        concat_buckets(buckets, cells.drop_last()) + buckets[cells.last() as int]
    }
}

/// Labelling twice gives the same cell table as labelling once.
pub proof fn lemma_label_cells_idempotent(
    types: Seq<Seq<SimGridCellType>>,
    buckets: Seq<Seq<usize>>,
    cols: int,
)
    ensures
        labeled_types(labeled_types(types, buckets, cols), buckets, cols) == labeled_types(
            types,
            buckets,
            cols,
        ),
{
    let once = labeled_types(types, buckets, cols);
    let twice = labeled_types(once, buckets, cols);
    assert forall|r: int| 0 <= r < twice.len() implies #[trigger] twice[r] == once[r] by {
        assert(twice[r] =~= once[r]);
    }
    assert(twice =~= once);
}

impl SimGrid {
    /// Labels every non-Solid cell Fluid if its bucket holds a particle and Air otherwise;
    /// Solid cells stay Solid.
    pub fn label_cells(&mut self)
        requires
            old(self).wf(),
        ensures
            final(self).wf(),
            final(self).types() == labeled_types(old(self).types(), old(self).buckets(), old(self).cols()),
            final(self).dimensions == old(self).dimensions,
            final(self).cell_size == old(self).cell_size,
            final(self).spatial_lookup == old(self).spatial_lookup,
    {
        let rows = self.dimensions.0 as usize;
        let cols = self.dimensions.1 as usize;
        let ghost target = labeled_types(old(self).types(), old(self).buckets(), old(self).cols());
        let mut row: usize = 0;
        while row < rows
            invariant
                self.wf(),
                rows == self.rows(),
                cols == self.cols(),
                self.dimensions == old(self).dimensions,
                self.cell_size == old(self).cell_size,
                self.spatial_lookup == old(self).spatial_lookup,
                target == labeled_types(old(self).types(), old(self).buckets(), old(self).cols()),
                old(self).wf(),
                row <= rows,
                forall|r: int, c: int|
                    0 <= r < rows && 0 <= c < cols ==> #[trigger] self.type_at(r, c) == if r < row {
                        target[r][c]
                    } else {
                        old(self).type_at(r, c)
                    },
            decreases rows - row,
        {
            let mut col: usize = 0;
            while col < cols
                invariant
                    self.wf(),
                    rows == self.rows(),
                    cols == self.cols(),
                    self.dimensions == old(self).dimensions,
                    self.cell_size == old(self).cell_size,
                    self.spatial_lookup == old(self).spatial_lookup,
                    target == labeled_types(old(self).types(), old(self).buckets(), old(self).cols()),
                    old(self).wf(),
                    row < rows,
                    col <= cols,
                    forall|r: int, c: int|
                        0 <= r < rows && 0 <= c < cols ==> #[trigger] self.type_at(r, c) == if r < row
                            || (r == row && c < col) {
                            target[r][c]
                        } else {
                            old(self).type_at(r, c)
                        },
                decreases cols - col,
            {
                let index = self.get_lookup_index(row, col);
                let occupied = self.spatial_lookup[index].len() > 0;
                let current = self.cell_type[row][col];
                let label = match current {
                    SimGridCellType::Solid => SimGridCellType::Solid,
                    _ => if occupied {
                        SimGridCellType::Fluid
                    } else {
                        SimGridCellType::Air
                    },
                };
                proof {
                    assert(self.type_at(row as int, col as int) == old(self).type_at(row as int, col as int));
                    assert(old(self).types()[row as int][col as int] == current);
                    assert(old(self).buckets()[index as int] == self.bucket(index as int));
                    assert(label == target[row as int][col as int]);
                }
                let ghost before = *self;
                self.cell_type[row][col] = label;
                proof {
                    assert forall|r: int, c: int| 0 <= r < rows && 0 <= c < cols implies #[trigger] self.type_at(r, c)
                        == if r < row || (r == row && c < col + 1) {
                        target[r][c]
                    } else {
                        old(self).type_at(r, c)
                    } by {
                        if r != row || c != col {
                            assert(self.type_at(r, c) == before.type_at(r, c));
                        }
                    }
                }
                col += 1;
            }
            row += 1;
        }
        proof {
            assert forall|r: int| 0 <= r < rows implies #[trigger] self.types()[r] == target[r] by {
                assert forall|c: int| 0 <= c < cols implies self.types()[r][c] == target[r][c] by {
                    assert(self.type_at(r, c) == target[r][c]);
                }
                assert(self.types()[r] =~= target[r]);
            }
            assert(self.types() =~= target);
        }
    }

    /// Sets every cell of the outermost ring to Solid; other cells keep their type.
    pub fn force_edge_solids(&mut self)
        requires
            old(self).wf(),
        ensures
            final(self).wf(),
            final(self).dimensions == old(self).dimensions,
            final(self).cell_size == old(self).cell_size,
            final(self).spatial_lookup == old(self).spatial_lookup,
            forall|r: int, c: int|
                0 <= r < old(self).rows() && 0 <= c < old(self).cols() ==> #[trigger] final(self).type_at(r, c)
                    == if on_edge(old(self).rows(), old(self).cols(), r, c) {
                    SimGridCellType::Solid
                } else {
                    old(self).type_at(r, c)
                },
    {
        let rows = self.dimensions.0 as usize;
        let cols = self.dimensions.1 as usize;
        let mut i: usize = 0;
        while i < rows
            invariant
                self.wf(),
                old(self).wf(),
                rows == self.rows(),
                cols == self.cols(),
                self.dimensions == old(self).dimensions,
                self.cell_size == old(self).cell_size,
                self.spatial_lookup == old(self).spatial_lookup,
                i <= rows,
                forall|r: int, c: int|
                    0 <= r < rows && 0 <= c < cols ==> #[trigger] self.type_at(r, c) == if r < i && (c == 0
                        || c == cols - 1) {
                        SimGridCellType::Solid
                    } else {
                        old(self).type_at(r, c)
                    },
            decreases rows - i,
        {
            let ghost before = *self;
            self.cell_type[i][0] = SimGridCellType::Solid;
            let ghost mid = *self;
            self.cell_type[i][cols - 1] = SimGridCellType::Solid;
            proof {
                assert forall|r: int, c: int| 0 <= r < rows && 0 <= c < cols implies #[trigger] self.type_at(r, c)
                    == if r < i + 1 && (c == 0 || c == cols - 1) {
                    SimGridCellType::Solid
                } else {
                    old(self).type_at(r, c)
                } by {
                    if r != i {
                        assert(self.type_at(r, c) == mid.type_at(r, c));
                        assert(mid.type_at(r, c) == before.type_at(r, c));
                    } else if c != 0 && c != cols - 1 {
                        assert(self.type_at(r, c) == mid.type_at(r, c));
                        assert(mid.type_at(r, c) == before.type_at(r, c));
                    } else if c == 0 && c != cols - 1 {
                        assert(self.type_at(r, c) == mid.type_at(r, c));
                    }
                }
            }
            i += 1;
        }
        let mut j: usize = 0;
        while j < cols
            invariant
                self.wf(),
                old(self).wf(),
                rows == self.rows(),
                cols == self.cols(),
                self.dimensions == old(self).dimensions,
                self.cell_size == old(self).cell_size,
                self.spatial_lookup == old(self).spatial_lookup,
                j <= cols,
                forall|r: int, c: int|
                    0 <= r < rows && 0 <= c < cols ==> #[trigger] self.type_at(r, c) == if (c == 0 || c
                        == cols - 1) || (c < j && (r == 0 || r == rows - 1)) {
                        SimGridCellType::Solid
                    } else {
                        old(self).type_at(r, c)
                    },
            decreases cols - j,
        {
            let ghost before = *self;
            self.cell_type[0][j] = SimGridCellType::Solid;
            let ghost mid = *self;
            self.cell_type[rows - 1][j] = SimGridCellType::Solid;
            proof {
                assert forall|r: int, c: int| 0 <= r < rows && 0 <= c < cols implies #[trigger] self.type_at(r, c)
                    == if (c == 0 || c == cols - 1) || (c < j + 1 && (r == 0 || r == rows - 1)) {
                    SimGridCellType::Solid
                } else {
                    old(self).type_at(r, c)
                } by {
                    if c != j {
                        assert(self.type_at(r, c) == mid.type_at(r, c));
                        assert(mid.type_at(r, c) == before.type_at(r, c));
                    } else if r != 0 && r != rows - 1 {
                        assert(self.type_at(r, c) == mid.type_at(r, c));
                        assert(mid.type_at(r, c) == before.type_at(r, c));
                    } else if r == 0 && r != rows - 1 {
                        assert(self.type_at(r, c) == mid.type_at(r, c));
                    }
                }
            }
            j += 1;
        }
    }

    /// The particles of the cells around `lookup_index` (see `neighbor_cells`), bucket by
    /// bucket.
    pub fn get_nearby_particles(&self, lookup_index: usize) -> (r: Vec<usize>)
        requires
            self.wf(),
            lookup_index < self.cell_count(),
        ensures
            r@ == concat_buckets(self.buckets(), neighbor_cells(self.rows(), self.cols(), lookup_index)),
    {
        let cells = self.neighbor_lookup_indices(lookup_index);
        let mut out: Vec<usize> = Vec::new();
        let mut i: usize = 0;
        while i < cells.len()
            invariant
                self.wf(),
                i <= cells@.len(),
                forall|k: int| 0 <= k < cells@.len() ==> 0 <= #[trigger] cells@[k] < self.cell_count(),
                out@ == concat_buckets(self.buckets(), cells@.subrange(0, i as int)),
            decreases cells@.len() - i,
        {
            let mut bucket = self.get_particles_in_lookup(cells[i]);
            out.append(&mut bucket);
            proof {
                let prefix = cells@.subrange(0, i as int + 1);
                assert(prefix.drop_last() =~= cells@.subrange(0, i as int));
                assert(self.buckets()[cells@[i as int] as int] == self.bucket(cells@[i as int] as int));
            }
            i += 1;
        }
        proof {
            assert(cells@.subrange(0, cells@.len() as int) =~= cells@);
        }
        out
    }

    /// Lookup indices of `neighbor_cells(lookup_index)`.
    fn neighbor_lookup_indices(&self, lookup_index: usize) -> (r: Vec<usize>)
        requires
            self.wf(),
            lookup_index < self.cell_count(),
        ensures
            r@ == neighbor_cells(self.rows(), self.cols(), lookup_index),
            forall|k: int| 0 <= k < r@.len() ==> 0 <= #[trigger] r@[k] < self.cell_count(),
    {
        let cols = self.dimensions.1 as usize;
        let rows = self.dimensions.0 as usize;
        proof {
            lemma_cell_count_fits(self.rows(), self.cols());
            lemma_index_decomposition(self.rows(), self.cols(), lookup_index as int);
            lemma_same_row_neighbors(self.rows(), self.cols(), lookup_index as int);
        }
        let row = lookup_index / cols;
        let col = lookup_index % cols;
        let has_left = col > 0;
        let has_right = col < cols - 1;
        let mut out: Vec<usize> = Vec::new();
        push_side(&mut out, lookup_index, has_left, has_right, Ghost(self.cell_count()));
        if row > 0 {
            let up = lookup_index - cols;
            proof {
                lemma_same_row_neighbors(self.rows(), self.cols(), up as int);
            }
            push_side(&mut out, up, has_left, has_right, Ghost(self.cell_count()));
        }
        if row < rows - 1 {
            let down = lookup_index + cols;
            proof {
                lemma_same_row_neighbors(self.rows(), self.cols(), down as int);
            }
            push_side(&mut out, down, has_left, has_right, Ghost(self.cell_count()));
        }
        proof {
            assert(out@ =~= neighbor_cells(self.rows(), self.cols(), lookup_index));
        }
        out
    }
}

/// Appends `side_of(c, has_left, has_right)`.
fn push_side(out: &mut Vec<usize>, c: usize, has_left: bool, has_right: bool, bound: Ghost<int>)
    requires
        c < bound@,
        has_left ==> c >= 1,
        has_right ==> c + 1 < bound@ && c < usize::MAX,
        forall|k: int| 0 <= k < old(out)@.len() ==> 0 <= #[trigger] old(out)@[k] < bound@,
    ensures
        final(out)@ == old(out)@ + side_of(c, has_left, has_right),
        forall|k: int| 0 <= k < final(out)@.len() ==> 0 <= #[trigger] final(out)@[k] < bound@,
{
    out.push(c);
    if has_left {
        out.push(c - 1);
    }
    if has_right {
        out.push(c + 1);
    }
    proof {
        assert(out@ =~= old(out)@ + side_of(c, has_left, has_right));
    }
}

/// Row and column recovered from a lookup index.
pub proof fn lemma_index_decomposition(rows: int, cols: int, index: int)
    requires
        rows >= 1,
        cols >= 1,
        0 <= index < rows * cols,
    ensures
        0 <= index / cols < rows,
        0 <= index % cols < cols,
        index == lookup_index_of(cols, index / cols, index % cols),
        index / cols > 0 ==> index - cols >= 0 && (index - cols) / cols == index / cols - 1 && (index
            - cols) % cols == index % cols,
        index / cols < rows - 1 ==> index + cols < rows * cols && (index + cols) / cols == index / cols
            + 1 && (index + cols) % cols == index % cols,
{
    assert(0 <= index / cols < rows && 0 <= index % cols < cols && index == (index / cols) * cols + index
        % cols) by (nonlinear_arith)
        requires
            rows >= 1,
            cols >= 1,
            0 <= index < rows * cols,
    ;
    if index / cols > 0 {
        assert(index - cols >= 0 && (index - cols) / cols == index / cols - 1 && (index - cols) % cols
            == index % cols) by (nonlinear_arith)
            requires
                cols >= 1,
                index / cols > 0,
                index == (index / cols) * cols + index % cols,
                0 <= index % cols < cols,
        {
            vstd::arithmetic::div_mod::lemma_fundamental_div_mod_converse(
                index - cols,
                cols,
                index / cols - 1,
                index % cols,
            );
        }
    }
    if index / cols < rows - 1 {
        assert(index + cols < rows * cols && (index + cols) / cols == index / cols + 1 && (index + cols)
            % cols == index % cols) by (nonlinear_arith)
            requires
                cols >= 1,
                index / cols < rows - 1,
                index == (index / cols) * cols + index % cols,
                0 <= index % cols < cols,
        {
            vstd::arithmetic::div_mod::lemma_fundamental_div_mod_converse(
                index + cols,
                cols,
                index / cols + 1,
                index % cols,
            );
        }
    }
}

/// Neighbours in the same row keep the row and shift the column.
proof fn lemma_same_row_neighbors(rows: int, cols: int, index: int)
    requires
        rows >= 1,
        cols >= 1,
        0 <= index < rows * cols,
    ensures
        index % cols > 0 ==> 0 <= index - 1 && (index - 1) % cols == index % cols - 1,
        index % cols < cols - 1 ==> index + 1 < rows * cols && (index + 1) % cols == index % cols + 1,
{
    lemma_index_decomposition(rows, cols, index);
    if index % cols > 0 {
        vstd::arithmetic::div_mod::lemma_fundamental_div_mod_converse(
            index - 1,
            cols,
            index / cols,
            index % cols - 1,
        );
    }
    if index % cols < cols - 1 {
        vstd::arithmetic::div_mod::lemma_fundamental_div_mod_converse(
            index + 1,
            cols,
            index / cols,
            index % cols + 1,
        );
        assert(index + 1 < rows * cols) by (nonlinear_arith)
            requires
                index == (index / cols) * cols + index % cols,
                index % cols < cols - 1,
                0 <= index / cols < rows,
                cols >= 1,
        ;
    }
}

/// World position of a MAC face, in whole world units: a horizontal-velocity face `(row, col)`
/// sits on the left side of cell `(row, col)`, a vertical-velocity face on its top side. The
/// offset along the face is `cell_size / 2` rounded down.
pub open spec fn face_position(rows: int, h: int, row: int, col: int, horizontal: bool) -> (int, int) {
    if horizontal {
        (col * h, rows * h - (row * h + h / 2))
    } else {
        (col * h + h / 2, rows * h - row * h)
    }
}

/// Left, right, bottom and top world lines of cell `(row, col)`, which may lie outside the grid.
pub open spec fn cell_bounds(rows: int, h: int, row: int, col: int) -> (int, int, int, int) {
    (col * h, (col + 1) * h, rows * h - (row + 1) * h, rows * h - row * h)
}

impl SimGrid {
    /// A face index names a face of the MAC grid: `rows x (cols + 1)` horizontal-velocity faces
    /// and `(rows + 1) x cols` vertical-velocity ones.
    pub open spec fn is_face(&self, row: int, col: int, horizontal: bool) -> bool {
        if horizontal {
            0 <= row < self.rows() && 0 <= col <= self.cols()
        } else {
            0 <= row <= self.rows() && 0 <= col < self.cols()
        }
    }

    /// The two cells a face separates: left and right of a horizontal-velocity face, above and
    /// below a vertical-velocity face.
    pub open spec fn face_cells(row: int, col: int, horizontal: bool) -> ((int, int), (int, int)) {
        if horizontal {
            ((row, col - 1), (row, col))
        } else {
            ((row - 1, col), (row, col))
        }
    }

    /// Particle velocities are transferred to a face unless it lies on the outer boundary of
    /// the domain or separates two Air cells or two Solid cells.
    pub open spec fn receives_transfer(&self, row: int, col: int, horizontal: bool) -> bool {
        let (a, b) = Self::face_cells(row, col, horizontal);
        &&& self.in_grid(a.0, a.1)
        &&& self.in_grid(b.0, b.1)
        &&& !(self.type_at(a.0, a.1) == SimGridCellType::Air && self.type_at(b.0, b.1)
            == SimGridCellType::Air)
        &&& !(self.type_at(a.0, a.1) == SimGridCellType::Solid && self.type_at(b.0, b.1)
            == SimGridCellType::Solid)
    }

    /// World position of face `(row, col)` (see `face_position`).
    pub fn get_velocity_point_pos(&self, row_index: usize, col_index: usize, horizontal: bool) -> (r: (i64, i64))
        requires
            self.is_face(row_index as int, col_index as int, horizontal),
        ensures
            (r.0 as int, r.1 as int) == face_position(
                self.rows(),
                self.cell_size as int,
                row_index as int,
                col_index as int,
                horizontal,
            ),
    {
        let h = self.cell_size as i64;
        let rows = self.dimensions.0 as i64;
        let row = row_index as i64;
        let col = col_index as i64;
        proof {
            lemma_world_bounds(rows as int, h as int, row as int);
            lemma_world_bounds(self.cols() + 1, h as int, col as int);
        }
        let offset = h / 2;
        if horizontal {
            (col * h, rows * h - (row * h + offset))
        } else {
            (col * h + offset, rows * h - row * h)
        }
    }

    /// Whether particle velocities are transferred to face `(row, col)` (see
    /// `receives_transfer`).
    pub fn face_receives_transfer(&self, row: usize, col: usize, horizontal: bool) -> (r: bool)
        requires
            self.wf(),
            self.is_face(row as int, col as int, horizontal),
        ensures
            r == self.receives_transfer(row as int, col as int, horizontal),
    {
        let rows = self.dimensions.0 as usize;
        let cols = self.dimensions.1 as usize;
        let (ar, ac, br, bc) = if horizontal {
            if col == 0 || col >= cols {
                return false;
            }
            (row, col - 1, row, col)
        } else {
            if row == 0 || row >= rows {
                return false;
            }
            (row - 1, col, row, col)
        };
        let a = self.cell_type[ar][ac];
        let b = self.cell_type[br][bc];
        let both_air = a == SimGridCellType::Air && b == SimGridCellType::Air;
        let both_solid = a == SimGridCellType::Solid && b == SimGridCellType::Solid;
        !both_air && !both_solid
    }

    /// Collision values (see `cell_type_value`) of a cell and of its four neighbours, in the
    /// order centre, left, right, up, down.
    pub fn calculate_cell_solids(&self, cell_row: usize, cell_col: usize) -> (r: [u8; 5])
        requires
            self.wf(),
        ensures
            r@ == seq![
                self.cell_type_value(cell_row as int, cell_col as int),
                self.cell_type_value(cell_row as int, cell_col - 1),
                self.cell_type_value(cell_row as int, cell_col + 1),
                self.cell_type_value(cell_row - 1, cell_col as int),
                self.cell_type_value(cell_row + 1, cell_col as int),
            ],
    {
        let rows = self.dimensions.0 as usize;
        let cols = self.dimensions.1 as usize;
        let center = self.get_cell_type_value(cell_row, cell_col);
        let left = if cell_col == 0 {
            0
        } else {
            self.get_cell_type_value(cell_row, cell_col - 1)
        };
        let right = if cell_col >= cols {
            0
        } else {
            self.get_cell_type_value(cell_row, cell_col + 1)
        };
        let up = if cell_row == 0 {
            0
        } else {
            self.get_cell_type_value(cell_row - 1, cell_col)
        };
        let down = if cell_row >= rows {
            0
        } else {
            self.get_cell_type_value(cell_row + 1, cell_col)
        };
        let r = [center, left, right, up, down];
        proof {
            assert(r@ =~= seq![center, left, right, up, down]);
        }
        r
    }

    /// World position of the bottom-left corner of cell `(row, col)`, clamped into
    /// `[0, cols * cell_size] x [0, (rows - 1) * cell_size]`.
    pub fn get_cell_position_from_coordinates(&self, row: i32, col: i32) -> (r: (i64, i64))
        requires
            self.wf(),
        ensures
            r.0 as int == clamp_int(col * self.cell_size, 0, self.cols() * self.cell_size),
            r.1 as int == clamp_int(
                (self.rows() - 1) * self.cell_size - row * self.cell_size,
                0,
                (self.rows() - 1) * self.cell_size,
            ),
    {
        let h = self.cell_size as i64;
        proof {
            lemma_world_bounds(self.rows(), h as int, 0);
            lemma_world_bounds(self.cols(), h as int, 0);
            lemma_coordinate_product(row as int, h as int);
            lemma_coordinate_product(col as int, h as int);
        }
        let max_x = self.dimensions.1 as i64 * h;
        let max_y = self.dimensions.0 as i64 * h - h;
        let x = col as i64 * h;
        let y = max_y - row as i64 * h;
        let cx = if x < 0 {
            0
        } else if x > max_x {
            max_x
        } else {
            x
        };
        let cy = if y < 0 {
            0
        } else if y > max_y {
            max_y
        } else {
            y
        };
        proof {
            assert((self.rows() - 1) * h == self.rows() * h - h) by (nonlinear_arith);
        }
        (cx, cy)
    }

    /// World lines of cell `(row, col)` (see `cell_bounds`); the cell may lie outside the grid.
    pub fn get_cell_bounds(&self, row: i32, col: i32) -> (r: (i64, i64, i64, i64))
        ensures
            (r.0 as int, r.1 as int, r.2 as int, r.3 as int) == cell_bounds(
                self.rows(),
                self.cell_size as int,
                row as int,
                col as int,
            ),
    {
        let h = self.cell_size as i64;
        proof {
            lemma_world_bounds(self.rows(), h as int, 0);
            lemma_coordinate_product(row as int, h as int);
            lemma_coordinate_product(col as int, h as int);
            lemma_coordinate_product(row as int + 1, h as int);
            lemma_coordinate_product(col as int + 1, h as int);
        }
        let top_of_grid = self.dimensions.0 as i64 * h;
        let left = col as i64 * h;
        let right = (col as i64 + 1) * h;
        let top = top_of_grid - row as i64 * h;
        let bottom = top_of_grid - (row as i64 + 1) * h;
        (left, right, bottom, top)
    }
}

/// Products of a grid extent and the cell size stay far inside `i64`.
proof fn lemma_world_bounds(n: int, h: int, k: int)
    requires
        0 <= n <= u16::MAX + 1,
        0 <= h <= u16::MAX,
        0 <= k <= n,
    ensures
        0 <= k * h <= n * h <= (u16::MAX + 1) * u16::MAX,
        0 <= k * h + h / 2 <= n * h + h,
{
    assert(0 <= k * h <= n * h <= (u16::MAX + 1) * u16::MAX) by (nonlinear_arith)
        requires
            0 <= n <= u16::MAX + 1,
            0 <= h <= u16::MAX,
            0 <= k <= n,
    ;
}

/// A 32-bit coordinate times a cell size stays inside `i64`.
proof fn lemma_coordinate_product(v: int, h: int)
    requires
        i32::MIN <= v <= i32::MAX + 1,
        0 <= h <= u16::MAX,
    ensures
        -0x1_0000_0000_0000 <= v * h <= 0x1_0000_0000_0000,
{
    assert(-0x1_0000_0000_0000 <= v * h <= 0x1_0000_0000_0000) by (nonlinear_arith)
        requires
            i32::MIN <= v <= i32::MAX + 1,
            0 <= h <= u16::MAX,
    ;
}

impl SimGrid {
    /// Cell `k` of a selection window whose bottom-left cell is `(bottom_row, left_col)` and
    /// which is `row_count` cells tall: windows are walked column by column, each column from
    /// the bottom row upward, and every cell is clamped into the grid.
    pub open spec fn selected_cell(&self, bottom_row: int, left_col: int, row_count: int, k: int) -> (usize, usize) {
        (
            clamp_int(bottom_row - k % row_count, 0, self.rows() - 1) as usize,
            clamp_int(left_col + k / row_count, 0, self.cols() - 1) as usize,
        )
    }

    /// The cells of the `col_count x row_count` window whose bottom-left cell is
    /// `(bottom_row, left_col)`, column by column and upward within a column. A window cell
    /// outside the grid is replaced by the nearest grid cell, so edge cells may repeat.
    pub fn select_grid_cells(&self, bottom_row: i32, left_col: i32, col_count: usize, row_count: usize) -> (r: Vec<(usize, usize)>)
        requires
            self.wf(),
            col_count <= u32::MAX,
            row_count <= u32::MAX,
            col_count * row_count <= usize::MAX,
        ensures
            r@.len() == col_count * row_count,
            forall|k: int|
                0 <= k < r@.len() ==> #[trigger] r@[k] == self.selected_cell(
                    bottom_row as int,
                    left_col as int,
                    row_count as int,
                    k,
                ),
            forall|k: int| 0 <= k < r@.len() ==> self.in_grid(#[trigger] r@[k].0 as int, r@[k].1 as int),
    {
        let max_row = self.dimensions.0 as i64 - 1;
        let max_col = self.dimensions.1 as i64 - 1;
        let mut out: Vec<(usize, usize)> = Vec::new();
        let mut i: usize = 0;
        while i < col_count
            invariant
                self.wf(),
                max_row == self.rows() - 1,
                max_col == self.cols() - 1,
                col_count <= u32::MAX,
                row_count <= u32::MAX,
                col_count * row_count <= usize::MAX,
                i <= col_count,
                out@.len() == i * row_count,
                forall|k: int|
                    0 <= k < out@.len() ==> #[trigger] out@[k] == self.selected_cell(
                        bottom_row as int,
                        left_col as int,
                        row_count as int,
                        k,
                    ),
                forall|k: int| 0 <= k < out@.len() ==> self.in_grid(#[trigger] out@[k].0 as int, out@[k].1 as int),
            decreases col_count - i,
        {
            let col = clamp_to(left_col as i64 + i as i64, max_col);
            let mut j: usize = 0;
            while j < row_count
                invariant
                    self.wf(),
                    max_row == self.rows() - 1,
                    max_col == self.cols() - 1,
                    row_count <= u32::MAX,
                    col_count * row_count <= usize::MAX,
                    i < col_count,
                    j <= row_count,
                    col == clamp_int(left_col + i, 0, self.cols() - 1),
                    out@.len() == i * row_count + j,
                    forall|k: int|
                        0 <= k < out@.len() ==> #[trigger] out@[k] == self.selected_cell(
                            bottom_row as int,
                            left_col as int,
                            row_count as int,
                            k,
                        ),
                    forall|k: int| 0 <= k < out@.len() ==> self.in_grid(#[trigger] out@[k].0 as int, out@[k].1 as int),
                decreases row_count - j,
            {
                let row = clamp_to(bottom_row as i64 - j as i64, max_row);
                proof {
                    let k = i * row_count + j;
                    vstd::arithmetic::div_mod::lemma_fundamental_div_mod_converse(
                        k as int,
                        row_count as int,
                        i as int,
                        j as int,
                    );
                    assert(i * row_count + j < col_count * row_count) by (nonlinear_arith)
                        requires
                            i < col_count,
                            j < row_count,
                    ;
                }
                out.push((row, col));
                j += 1;
            }
            proof {
                assert((i + 1) * row_count == i * row_count + row_count) by (nonlinear_arith);
            }
            i += 1;
        }
        out
    }
}

/// `v` clamped into `[0, hi]`.
fn clamp_to(v: i64, hi: i64) -> (r: usize)
    requires
        0 <= hi <= u32::MAX,
    ensures
        r as int == clamp_int(v as int, 0, hi as int),
{
    if v < 0 {
        0
    } else if v > hi {
        hi as usize
    } else {
        v as usize
    }
}

impl SimGrid {
    /// Resizes the grid to `height` rows and `width` columns, all Air with empty buckets; a zero
    /// dimension is refused without change. Particles stored against the old buckets must be
    /// deleted by the caller.
    pub fn set_grid_dimensions(&mut self, width: u16, height: u16) -> (r: Result<(), Error>)
        requires
            old(self).wf(),
        ensures
            final(self).wf(),
            r is Err <==> (width == 0 || height == 0),
            r is Err ==> r->Err_0.is_grid_size() && *final(self) == *old(self),
            r is Ok ==> final(self).is_blank(height, width, old(self).cell_size),
    {
        if width == 0 || height == 0 {
            return Err(Error::GridSizeError("Grid dimensions must be positive."));
        }
        proof {
            lemma_cell_count_fits(height as int, width as int);
        }
        self.dimensions = (height, width);
        self.cell_type = blank_cell_types(height as usize, width as usize);
        self.spatial_lookup = empty_buckets(height as usize * width as usize);
        Ok(())
    }

    /// Sets the cell size; zero is refused without change.
    pub fn set_grid_cell_size(&mut self, cell_size: u16) -> (r: Result<(), Error>)
        requires
            old(self).wf(),
        ensures
            final(self).wf(),
            r is Err <==> cell_size == 0,
            r is Err ==> r->Err_0.is_grid_size() && *final(self) == *old(self),
            r is Ok ==> *final(self) == (SimGrid { cell_size, ..*old(self) }),
    {
        if cell_size == 0 {
            return Err(Error::GridSizeError("Cell size must be positive."));
        }
        self.cell_size = cell_size;
        Ok(())
    }
}

impl Default for SimGrid {
    /// A blank 50 x 50 grid of cell size 5.
    fn default() -> (r: SimGrid)
        ensures
            r.is_blank(50, 50, 5),
    {
        SimGrid {
            dimensions: (50, 50),
            cell_size: 5,
            cell_type: blank_cell_types(50, 50),
            spatial_lookup: empty_buckets(2500),
        }
    }
}

impl SimGrid {
    /// The cell of lookup index `i`, as `(row, col)`.
    pub open spec fn cell_at(&self, i: int) -> (int, int) {
        (i / self.cols(), i % self.cols())
    }

    /// Lookup indices below `n` of Fluid cells, in increasing order.
    pub open spec fn fluid_cells_upto(&self, n: int) -> Seq<usize>
        decreases n,
    {
        if n <= 0 {
            Seq::empty()
        } else {
            let (r, c) = self.cell_at(n - 1);
            self.fluid_cells_upto(n - 1) + if self.type_at(r, c) == SimGridCellType::Fluid {
                seq![(n - 1) as usize]
            } else {
                Seq::empty()
            }
        }
    }

    /// A cell takes part in the pressure projection when it is Fluid and at least one of its
    /// four neighbours is inside the grid and not Solid.
    pub open spec fn is_projected(&self, r: int, c: int) -> bool {
        &&& self.type_at(r, c) == SimGridCellType::Fluid
        &&& self.cell_type_value(r, c - 1) + self.cell_type_value(r, c + 1) + self.cell_type_value(r - 1, c)
            + self.cell_type_value(r + 1, c) > 0
    }

    /// Lookup indices below `n` of the cells taking part in the projection, in increasing order.
    pub open spec fn projected_cells_upto(&self, n: int) -> Seq<usize>
        decreases n,
    {
        if n <= 0 {
            Seq::empty()
        } else {
            let (r, c) = self.cell_at(n - 1);
            self.projected_cells_upto(n - 1) + if self.is_projected(r, c) {
                seq![(n - 1) as usize]
            } else {
                Seq::empty()
            }
        }
    }

    /// The particles of the Fluid cells, cell by cell in lookup order: the particles that
    /// receive grid velocities, in the order they receive them.
    pub fn particles_in_fluid_cells(&self) -> (r: Vec<usize>)
        requires
            self.wf(),
        ensures
            r@ == concat_buckets(self.buckets(), self.fluid_cells_upto(self.cell_count())),
    {
        let count = self.spatial_lookup.len();
        let cols = self.dimensions.1 as usize;
        let mut out: Vec<usize> = Vec::new();
        let mut i: usize = 0;
        while i < count
            invariant
                self.wf(),
                count == self.cell_count(),
                cols == self.cols(),
                i <= count,
                out@ == concat_buckets(self.buckets(), self.fluid_cells_upto(i as int)),
            decreases count - i,
        {
            proof {
                lemma_index_decomposition(self.rows(), self.cols(), i as int);
            }
            let row = i / cols;
            let col = i % cols;
            if self.cell_type[row][col] == SimGridCellType::Fluid {
                let mut bucket = self.get_particles_in_lookup(i);
                out.append(&mut bucket);
                proof {
                    assert(self.cell_at(i as int) == (row as int, col as int));
                    assert(self.fluid_cells_upto(i as int + 1) =~= self.fluid_cells_upto(i as int).push(i));
                    lemma_concat_buckets_push(self.buckets(), self.fluid_cells_upto(i as int), i);
                    assert(self.buckets()[i as int] == self.bucket(i as int));
                }
            }
            proof {
                let (r0, c0) = self.cell_at(i as int);
                if self.type_at(r0, c0) != SimGridCellType::Fluid {
                    assert(self.fluid_cells_upto(i as int + 1) =~= self.fluid_cells_upto(i as int));
                }
            }
            i += 1;
        }
        out
    }

    /// Lookup indices of the cells taking part in the projection (see `is_projected`), in
    /// increasing order.
    pub fn projected_cells(&self) -> (r: Vec<usize>)
        requires
            self.wf(),
        ensures
            r@ == self.projected_cells_upto(self.cell_count()),
    {
        let count = self.spatial_lookup.len();
        let cols = self.dimensions.1 as usize;
        let mut out: Vec<usize> = Vec::new();
        let mut i: usize = 0;
        while i < count
            invariant
                self.wf(),
                count == self.cell_count(),
                cols == self.cols(),
                i <= count,
                out@ == self.projected_cells_upto(i as int),
            decreases count - i,
        {
            proof {
                lemma_index_decomposition(self.rows(), self.cols(), i as int);
            }
            let row = i / cols;
            let col = i % cols;
            if self.cell_type[row][col] == SimGridCellType::Fluid {
                let solids = self.calculate_cell_solids(row, col);
                let open_sides = solids[1] as u32 + solids[2] as u32 + solids[3] as u32 + solids[4] as u32;
                if open_sides > 0 {
                    out.push(i);
                }
            }
            proof {
                let (r0, c0) = self.cell_at(i as int);
                if !self.is_projected(r0, c0) {
                    assert(self.projected_cells_upto(i as int + 1) =~= self.projected_cells_upto(i as int));
                }
            }
            i += 1;
        }
        out
    }
}

/// Concatenating one more bucket.
pub proof fn lemma_concat_buckets_push(buckets: Seq<Seq<usize>>, cells: Seq<usize>, c: usize)
    ensures
        concat_buckets(buckets, cells.push(c)) == concat_buckets(buckets, cells) + buckets[c as int],
{
    assert(cells.push(c).drop_last() =~= cells);
}

/// `s` without position `k`, whose place is taken by the last element.
pub open spec fn swap_removed<A>(s: Seq<A>, k: int) -> Seq<A> {
    s.update(k, s.last()).drop_last()
}

/// Position `k` holds the first occurrence of `x` in `s`.
pub open spec fn is_first_occurrence<A>(s: Seq<A>, k: int, x: A) -> bool {
    &&& 0 <= k < s.len()
    &&& s[k] == x
    &&& forall|j: int| 0 <= j < k ==> s[j] != x
}

/// Swap-removing position `k` of a sequence without duplicates leaves exactly the other
/// elements, still without duplicates.
pub proof fn lemma_swap_removed_contents<A>(s: Seq<A>, k: int)
    requires
        s.no_duplicates(),
        0 <= k < s.len(),
    ensures
        swap_removed(s, k).no_duplicates(),
        swap_removed(s, k).len() == s.len() - 1,
        forall|x: A| #[trigger] swap_removed(s, k).contains(x) <==> (s.contains(x) && x != s[k]),
{
    let t = swap_removed(s, k);
    let n = s.len();
    assert forall|i: int, j: int| 0 <= i < t.len() && 0 <= j < t.len() && i != j implies t[i] != t[j] by {
        let si = if i == k { n - 1 } else { i };
        let sj = if j == k { n - 1 } else { j };
        assert(t[i] == s[si]);
        assert(t[j] == s[sj]);
    }
    assert forall|x: A| #[trigger] t.contains(x) <==> (s.contains(x) && x != s[k]) by {
        if t.contains(x) {
            let i = choose|i: int| 0 <= i < t.len() && t[i] == x;
            let si = if i == k { n - 1 } else { i };
            assert(s[si] == x);
            assert(si != k);
        }
        if s.contains(x) && x != s[k] {
            let i = choose|i: int| 0 <= i < n && s[i] == x;
            assert(i != k);
            if i == n - 1 {
                assert(t[k] == x);
            } else {
                assert(t[i] == x);
            }
        }
    }
}

/// Overwriting position `k` of a sequence without duplicates by an absent value keeps it
/// without duplicates and trades the old element for the new one.
pub proof fn lemma_update_contents<A>(s: Seq<A>, k: int, v: A)
    requires
        s.no_duplicates(),
        0 <= k < s.len(),
        !s.contains(v),
    ensures
        s.update(k, v).no_duplicates(),
        forall|x: A| #[trigger] s.update(k, v).contains(x) <==> (x == v || (s.contains(x) && x != s[k])),
{
    let t = s.update(k, v);
    assert forall|i: int, j: int| 0 <= i < t.len() && 0 <= j < t.len() && i != j implies t[i] != t[j] by {
        if i == k {
            assert(s.contains(s[j]));
        } else if j == k {
            assert(s.contains(s[i]));
        }
    }
    assert forall|x: A| #[trigger] t.contains(x) <==> (x == v || (s.contains(x) && x != s[k])) by {
        if x == v {
            assert(t[k] == v);
        } else if s.contains(x) && x != s[k] {
            let i = choose|i: int| 0 <= i < s.len() && s[i] == x;
            assert(t[i] == x);
        }
        if t.contains(x) && x != v {
            let i = choose|i: int| 0 <= i < t.len() && t[i] == x;
            assert(i != k);
            assert(s[i] == x);
        }
    }
}

pub proof fn lemma_lookup_index_bounds(rows: int, cols: int, row: int, col: int)
    requires
        0 <= row < rows,
        0 <= col < cols,
    ensures
        0 <= lookup_index_of(cols, row, col) < rows * cols,
{
    assert(row * cols + col < rows * cols) by (nonlinear_arith)
        requires
            0 <= row < rows,
            0 <= col < cols,
    ;
    assert(0 <= row * cols) by (nonlinear_arith)
        requires
            0 <= row,
            0 <= col < cols,
    ;
}

/// `rows` rows of `cols` Air cells.
fn blank_cell_types(rows: usize, cols: usize) -> (r: Vec<Vec<SimGridCellType>>)
    ensures
        r@.len() == rows,
        forall|i: int| 0 <= i < rows ==> (#[trigger] r@[i])@.len() == cols,
        forall|i: int, j: int|
            0 <= i < rows && 0 <= j < cols ==> #[trigger] r@[i]@[j] == SimGridCellType::Air,
{
    let mut out: Vec<Vec<SimGridCellType>> = Vec::new();
    let mut i: usize = 0;
    while i < rows
        invariant
            i <= rows,
            out@.len() == i,
            forall|k: int| 0 <= k < i ==> (#[trigger] out@[k])@.len() == cols,
            forall|k: int, j: int|
                0 <= k < i && 0 <= j < cols ==> #[trigger] out@[k]@[j] == SimGridCellType::Air,
        decreases rows - i,
    {
        let mut row: Vec<SimGridCellType> = Vec::new();
        let mut j: usize = 0;
        while j < cols
            invariant
                j <= cols,
                row@.len() == j,
                forall|k: int| 0 <= k < j ==> #[trigger] row@[k] == SimGridCellType::Air,
            decreases cols - j,
        {
            row.push(SimGridCellType::Air);
            j += 1;
        }
        out.push(row);
        i += 1;
    }
    out
}

/// `count` empty lookup buckets.
fn empty_buckets(count: usize) -> (r: Vec<Vec<usize>>)
    ensures
        r@.len() == count,
        forall|i: int| 0 <= i < count ==> (#[trigger] r@[i])@.len() == 0,
{
    let mut out: Vec<Vec<usize>> = Vec::new();
    let mut i: usize = 0;
    while i < count
        invariant
            i <= count,
            out@.len() == i,
            forall|k: int| 0 <= k < i ==> (#[trigger] out@[k])@.len() == 0,
        decreases count - i,
    {
        out.push(Vec::new());
        i += 1;
    }
    out
}

} // verus!
