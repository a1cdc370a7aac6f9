use vstd::prelude::*;

verus! {

/// Validation errors returned by grid mutators; a call that fails leaves the state unchanged.
#[derive(Debug, Clone, Copy)]
pub enum Error {
    /// Row or column lies outside the grid.
    OutOfGridBounds(&'static str),
    /// Requested grid dimensions or cell size are unusable.
    GridSizeError(&'static str),
}

impl Error {
    pub open spec fn is_out_of_bounds(self) -> bool {
        self is OutOfGridBounds
    }

    pub open spec fn is_grid_size(self) -> bool {
        self is GridSizeError
    }

    /// Human-readable message carried by the error.
    pub fn message(&self) -> (r: &'static str)
        ensures
            r == match *self {
                Error::OutOfGridBounds(m) => m,
                Error::GridSizeError(m) => m,
            },
    {
        match self {
            Error::OutOfGridBounds(m) => m,
            Error::GridSizeError(m) => m,
        }
    }
}

} // verus!
