//! A magnified, read-only view of a grid: each cell of the source becomes a
//! block the size of a stencil, showing the stencil where the source cell is
//! on and nothing where it is off. The magnified grid is never built.
use crate::data::Data;
use crate::error::GridError;
use crate::model::{lemma_substitute_at, substitute, GridModel};
use crate::pixmap::Pixmap;
use vstd::prelude::*;

verus! {

/// A source grid drawn with a stencil in place of each of its on-cells. Both
/// grids are borrowed and never changed.
pub struct Canvas<'a> {
    source: &'a Pixmap,
    stencil: &'a Pixmap,
    /// An all-off grid of the stencil's size, shown for off source cells.
    blank: Pixmap,
}

impl<'a> Canvas<'a> {
    /// The grid that is magnified.
    pub closed spec fn source_grid(&self) -> GridModel {
        self.source@
    }

    /// The pattern drawn for each on-cell of the source.
    pub closed spec fn stencil_grid(&self) -> GridModel {
        self.stencil@
    }

    /// Both grids are well formed, the stencil is not empty, the blank grid is
    /// an all-off grid of the stencil's size, and both sides of the magnified
    /// grid fit in `usize`.
    pub closed spec fn wf(&self) -> bool {
        &&& self.source.wf()
        &&& self.stencil.wf()
        &&& self.blank.wf()
        &&& self.stencil@.width > 0
        &&& self.stencil@.height > 0
        &&& self.blank@.width == self.stencil@.width
        &&& self.blank@.height == self.stencil@.height
        &&& self.blank@.all_off()
        &&& self.source@.width * self.stencil@.width <= usize::MAX
        &&& self.source@.height * self.stencil@.height <= usize::MAX
    }

    /// A view of `source` magnified by `stencil`. A source or stencil with no
    /// columns or no rows is refused, and so is a magnified side longer than
    /// `usize` can count.
    pub fn new(source: &'a Pixmap, stencil: &'a Pixmap) -> (r: Result<Canvas<'a>, GridError>)
        requires
            source.wf(),
            stencil.wf(),
        ensures
            (r matches Err(GridError::ZeroDimension)) <==> (source@.width == 0 || source@.height == 0
                || stencil@.width == 0 || stencil@.height == 0),
            (r matches Err(GridError::TooLarge)) <==> (source@.width > 0 && source@.height > 0
                && stencil@.width > 0 && stencil@.height > 0 && (source@.width * stencil@.width
                > usize::MAX || source@.height * stencil@.height > usize::MAX)),
            !(r matches Err(GridError::OutOfRange)),
            r matches Ok(c) ==> {
                &&& c.wf()
                &&& c.source_grid() == source@
                &&& c.stencil_grid() == stencil@
            },
    {
        let sw = stencil.width();
        let sh = stencil.height();
        if source.width() == 0 || source.height() == 0 || sw == 0 || sh == 0 {
            return Err(GridError::ZeroDimension);
        }
        if source.width().checked_mul(sw).is_none() || source.height().checked_mul(sh).is_none() {
            return Err(GridError::TooLarge);
        }
        let blank = Pixmap::new(sw, sh, false);
        Ok(Canvas { source, stencil, blank })
    }

    /// The point in column `x` of row `y` of the magnified grid, or
    /// `OutOfRange` for a point outside it.
    pub fn checked_get_point(&self, x: usize, y: usize) -> (r: Result<bool, GridError>)
        requires
            self.ready(),
        ensures
            r == if self.image().in_bounds(x as int, y as int) {
                Ok::<bool, GridError>(self.image().at(x as int, y as int))
            } else {
                Err::<bool, GridError>(GridError::OutOfRange)
            },
    {
        let (width, height) = self.get_dimension();
        if x < width && y < height {
            Ok(self.get_point(x, y))
        } else {
            Err(GridError::OutOfRange)
        }
    }
}

impl<'a> Data for Canvas<'a> {
    open spec fn ready(&self) -> bool {
        self.wf()
    }

    open spec fn image(&self) -> GridModel {
        substitute(self.source_grid(), self.stencil_grid())
    }

    fn get_dimension(&self) -> (r: (usize, usize)) {
        (self.source.width() * self.stencil.width(), self.source.height() * self.stencil.height())
    }

    /// On exactly when the source cell that covers `(x, y)` is on and the
    /// stencil is on at the same place within its block.
    fn get_point(&self, x: usize, y: usize) -> (r: bool)
        ensures
            r == (self.source_grid().at(
                x as int / self.stencil_grid().width as int,
                y as int / self.stencil_grid().height as int,
            ) && self.stencil_grid().at(
                x as int % self.stencil_grid().width as int,
                y as int % self.stencil_grid().height as int,
            )),
    {
        let sw = self.stencil.width();
        let sh = self.stencil.height();
        proof {
            lemma_substitute_at(self.source@, self.stencil@, x as int, y as int);
            crate::fractal::lemma_quotient_below(x as int, sw as int, self.source@.width as int);
            crate::fractal::lemma_quotient_below(y as int, sh as int, self.source@.height as int);
            vstd::arithmetic::div_mod::lemma_mod_bound(x as int, sw as int);
            vstd::arithmetic::div_mod::lemma_mod_bound(y as int, sh as int);
        }
        let (ix, iy) = (x % sw, y % sh);
        if self.source.get(x / sw, y / sh) {
            self.stencil.get(ix, iy)
        } else {
            proof {
                assert(self.blank@.in_bounds(ix as int, iy as int));
            }
            self.blank.get(ix, iy)
        }
    }
}

} // verus!
