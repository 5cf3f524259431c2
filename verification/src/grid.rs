//! A rectangular grid of per-cell data, indexed by signed coordinates.

use vstd::prelude::*;

verus! {

/// Largest accepted grid dimension; keeps index arithmetic inside `i64`.
pub const DIM_LIMIT: usize = 40000;

/// Grid used for terrain and other per-cell features.
///
/// Cell `(x, y)` lives at offset `x * height + y` of `data`.
pub struct Grid<T> {
    data: Vec<T>,
    width: usize,
    height: usize,
}

impl<T> Grid<T> {
    /// The stored cells as a sequence, row by row.
    pub closed spec fn spec_data(self) -> Seq<T> {
        self.data@
    }

    pub closed spec fn spec_width(self) -> usize {
        self.width
    }

    pub closed spec fn spec_height(self) -> usize {
        self.height
    }

    /// Dimensions are bounded and the data fills the rectangle exactly.
    pub open spec fn wf(self) -> bool {
        self.spec_data().len() == self.spec_width() * self.spec_height() && self.spec_width()
            <= DIM_LIMIT && self.spec_height() <= DIM_LIMIT
    }

    /// `(x, y)` names a cell of the grid.
    pub open spec fn spec_in_bounds(self, x: int, y: int) -> bool {
        0 <= x < self.spec_width() && 0 <= y < self.spec_height()
    }

    /// The cell stored at `(x, y)`.
    pub open spec fn spec_at(self, x: int, y: int) -> T
        recommends
            self.spec_in_bounds(x, y),
    {
        self.spec_data()[x * self.spec_height() + y]
    }

    /// Builds a grid from row-major data whose length matches the dimensions.
    pub fn from_vec(data: Vec<T>, width: usize, height: usize) -> (r: Self)
        requires
            data@.len() == width * height,
            width <= DIM_LIMIT,
            height <= DIM_LIMIT,
        ensures
            r.wf(),
            r.spec_data() == data@,
            r.spec_width() == width,
            r.spec_height() == height,
    {
        Self { data, width, height }
    }

    /// The cell at `(x, y)`, or `None` when the coordinate is out of bounds.
    pub fn get(&self, x: i64, y: i64) -> (r: Option<&T>)
        requires
            self.wf(),
        ensures
            match r {
                Some(v) => self.spec_in_bounds(x as int, y as int) && *v == self.spec_at(
                    x as int,
                    y as int,
                ),
                None => !self.spec_in_bounds(x as int, y as int),
            },
    {
        if x < 0 || y < 0 || x >= self.width as i64 || y >= self.height as i64 {
            None
        } else {
            proof {
                let xi = x as int;
                let yi = y as int;
                assert(self.spec_width() * self.spec_height() <= 1600000000) by (nonlinear_arith)
                    requires
                        0 <= self.spec_width() <= DIM_LIMIT,
                        0 <= self.spec_height() <= DIM_LIMIT,
                ;
                assert(xi * self.spec_height() + yi < self.spec_width() * self.spec_height()) by {
                    assert(xi * self.spec_height() <= (self.spec_width() - 1) * self.spec_height())
                        by (nonlinear_arith)
                        requires
                            xi <= self.spec_width() - 1,
                            self.spec_height() >= 0,
                    ;
                    assert((self.spec_width() - 1) * self.spec_height() + self.spec_height()
                        == self.spec_width() * self.spec_height()) by (nonlinear_arith);
                }
            }
            let i: usize = (x as usize) * self.height + (y as usize);
            Some(&self.data[i])
        }
    }

    pub fn width(&self) -> (r: usize)
        ensures
            r == self.spec_width(),
    {
        self.width
    }

    pub fn height(&self) -> (r: usize)
        ensures
            r == self.spec_height(),
    {
        self.height
    }
}

impl<T: Clone> Clone for Grid<T> {
    fn clone(&self) -> (r: Self) {
        Grid { data: self.data.clone(), width: self.width, height: self.height }
    }
}

} // verus!
