//! The read-only view that a rasterizer walks: dimensions and one boolean per
//! point.
use crate::model::GridModel;
use vstd::prelude::*;

verus! {

/// Something that can be read as a grid of points.
pub trait Data {
    /// The readable state is consistent.
    spec fn ready(&self) -> bool;

    /// The grid that this value presents.
    spec fn image(&self) -> GridModel;

    /// Width and height of the presented grid.
    fn get_dimension(&self) -> (r: (usize, usize))
        requires
            self.ready(),
        ensures
            r.0 == self.image().width,
            r.1 == self.image().height,
    ;

    /// The point in column `x` of row `y` of the presented grid.
    fn get_point(&self, x: usize, y: usize) -> (r: bool)
        requires
            self.ready(),
            x < self.image().width,
            y < self.image().height,
        ensures
            r == self.image().at(x as int, y as int),
    ;
}

} // verus!
