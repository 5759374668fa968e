//! A fixed-size two-dimensional grid of booleans.
use crate::data::Data;
use crate::error::GridError;
use crate::model::{
    blit, lemma_blit_at, lemma_grid_ext, lemma_index, lemma_window_at, window, GridModel,
};
use vstd::prelude::*;

verus! {

/// A grid of `width * height` cells, stored row by row.
#[derive(Debug)]
pub struct Pixmap {
    width: usize,
    height: usize,
    data: Vec<bool>,
}

impl View for Pixmap {
    type V = GridModel;

    closed spec fn view(&self) -> GridModel {
        GridModel { width: self.width as nat, height: self.height as nat, cells: self.data@ }
    }
}

impl Pixmap {
    /// The buffer matches the dimensions, and its length fits in `usize`.
    pub open spec fn wf(&self) -> bool {
        &&& self@.wf()
        &&& self@.width * self@.height <= usize::MAX
    }

    /// A `width` by `height` grid with every cell set to `fill`.
    pub fn new(width: usize, height: usize, fill: bool) -> (r: Pixmap)
        requires
            width * height <= usize::MAX,
        ensures
            r.wf(),
            r@.width == width,
            r@.height == height,
            forall|x: int, y: int| #![trigger r@.at(x, y)] r@.in_bounds(x, y) ==> r@.at(x, y) == fill,
    {
        let n: usize = width * height;
        let mut data: Vec<bool> = Vec::with_capacity(n);
        let mut i: usize = 0;
        while i < n
            invariant
                i <= n,
                data@.len() == i,
                forall|j: int| 0 <= j < i ==> data@[j] == fill,
            decreases n - i,
        {
            data.push(fill);
            i += 1;
        }
        let r = Pixmap { width, height, data };
        assert forall|x: int, y: int| #![trigger r@.at(x, y)] r@.in_bounds(x, y) implies r@.at(x, y) == fill by {
            lemma_index(width as nat, height as nat, x, y);
        }
        r
    }

    pub fn width(&self) -> (r: usize)
        ensures
            r == self@.width,
    {
        self.width
    }

    pub fn height(&self) -> (r: usize)
        ensures
            r == self@.height,
    {
        self.height
    }

    /// The cell in column `x` of row `y`.
    pub fn get(&self, x: usize, y: usize) -> (r: bool)
        requires
            self.wf(),
            x < self@.width,
            y < self@.height,
        ensures
            r == self@.at(x as int, y as int),
    {
        proof {
            lemma_index(self.width as nat, self.height as nat, x as int, y as int);
        }
        self.data[y * self.width + x]
    }

    /// Sets the cell in column `x` of row `y` to `value`, leaving every other
    /// cell as it was.
    pub fn set(&mut self, x: usize, y: usize, value: bool)
        requires
            old(self).wf(),
            x < old(self)@.width,
            y < old(self)@.height,
        ensures
            final(self).wf(),
            final(self)@.width == old(self)@.width,
            final(self)@.height == old(self)@.height,
            final(self)@.at(x as int, y as int) == value,
            forall|i: int, j: int|
                #![trigger final(self)@.at(i, j)]
                final(self)@.in_bounds(i, j) && (i != x || j != y) ==> final(self)@.at(i, j)
                    == old(self)@.at(i, j),
    {
        proof {
            lemma_index(self.width as nat, self.height as nat, x as int, y as int);
        }
        let idx: usize = y * self.width + x;
        self.data.set(idx, value);
        proof {
            let w = self.width as nat;
            let h = self.height as nat;
            assert forall|i: int, j: int|
                #![trigger final(self)@.at(i, j)]
                final(self)@.in_bounds(i, j) && (i != x || j != y) implies final(self)@.at(i, j)
                == old(self)@.at(i, j) by {
                lemma_index(w, h, i, j);
            }
        }
    }
    /// Like `get`, but reports a coordinate outside the grid as an error.
    pub fn checked_get(&self, x: usize, y: usize) -> (r: Result<bool, GridError>)
        requires
            self.wf(),
        ensures
            r == if self@.in_bounds(x as int, y as int) {
                Ok::<bool, GridError>(self@.at(x as int, y as int))
            } else {
                Err::<bool, GridError>(GridError::OutOfRange)
            },
    {
        if x < self.width && y < self.height {
            Ok(self.get(x, y))
        } else {
            Err(GridError::OutOfRange)
        }
    }

    /// Like `set`, but reports a coordinate outside the grid as an error and
    /// then leaves the grid unchanged.
    pub fn checked_set(&mut self, x: usize, y: usize, value: bool) -> (r: Result<(), GridError>)
        requires
            old(self).wf(),
        ensures
            final(self).wf(),
            final(self)@.width == old(self)@.width,
            final(self)@.height == old(self)@.height,
            old(self)@.in_bounds(x as int, y as int) <==> r is Ok,
            r is Err ==> r == Err::<(), GridError>(GridError::OutOfRange) && final(self)@ == old(self)@,
            r is Ok ==> final(self)@.at(x as int, y as int) == value,
            forall|i: int, j: int|
                #![trigger final(self)@.at(i, j)]
                final(self)@.in_bounds(i, j) && (i != x || j != y) ==> final(self)@.at(i, j)
                    == old(self)@.at(i, j),
    {
        if x < self.width && y < self.height {
            self.set(x, y, value);
            Ok(())
        } else {
            Err(GridError::OutOfRange)
        }
    }

    /// Merges every on-cell of `self` into `dest`, shifted by
    /// `(x_offset, y_offset)`. Off-cells are not copied, so what `dest` already
    /// holds stays on: several blits accumulate.
    pub fn copy_to(&self, dest: &mut Pixmap, x_offset: usize, y_offset: usize)
        requires
            self.wf(),
            old(dest).wf(),
            forall|x: int, y: int|
                #![trigger self@.at(x, y)]
                self@.in_bounds(x, y) && self@.at(x, y) ==> x + x_offset
                    < old(dest)@.width && y + y_offset < old(dest)@.height,
        ensures
            final(dest).wf(),
            final(dest)@ == blit(old(dest)@, self@, x_offset as int, y_offset as int),
    {
        let ghost d0 = dest@;
        let ghost src = self@;
        let ghost xo = x_offset as int;
        let ghost yo = y_offset as int;
        let mut y: usize = 0;
        while y < self.height
            invariant
                self.wf(),
                self@ == src,
                dest.wf(),
                y <= src.height,
                dest@.width == d0.width,
                dest@.height == d0.height,
                xo == x_offset,
                yo == y_offset,
                d0.width <= usize::MAX,
                d0.height <= usize::MAX,
                forall|x: int, y: int|
                    #![trigger src.at(x, y)]
                    src.in_bounds(x, y) && src.at(x, y) ==> x + xo < d0.width && y + yo
                        < d0.height,
                forall|i: int, j: int|
                    #![trigger dest@.at(i, j)]
                    dest@.in_bounds(i, j) ==> dest@.at(i, j) == (d0.at(i, j) || (
                    src.in_bounds(i - xo, j - yo) && j - yo < y && src.at(i - xo, j - yo))),
            decreases src.height - y,
        {
            let mut x: usize = 0;
            while x < self.width
                invariant
                    self.wf(),
                    self@ == src,
                    dest.wf(),
                    y < src.height,
                    x <= src.width,
                    dest@.width == d0.width,
                    dest@.height == d0.height,
                    xo == x_offset,
                yo == y_offset,
                d0.width <= usize::MAX,
                    d0.height <= usize::MAX,
                    forall|x: int, y: int|
                        #![trigger src.at(x, y)]
                        src.in_bounds(x, y) && src.at(x, y) ==> x + xo < d0.width && y
                            + yo < d0.height,
                    forall|i: int, j: int|
                        #![trigger dest@.at(i, j)]
                        dest@.in_bounds(i, j) ==> dest@.at(i, j) == (d0.at(i, j) || (
                        src.in_bounds(i - xo, j - yo) && (j - yo < y || (j - yo == y && i - xo
                            < x)) && src.at(i - xo, j - yo))),
                decreases src.width - x,
            {
                if self.get(x, y) {
                    assert(src.in_bounds(x as int, y as int));
                    dest.set(x + x_offset, y + y_offset, true);
                }
                x += 1;
            }
            y += 1;
        }
        proof {
            let expected = blit(d0, src, xo, yo);
            assert forall|i: int, j: int| #[trigger] dest@.in_bounds(i, j) implies dest@.at(i, j)
                == expected.at(i, j) by {
                lemma_blit_at(d0, src, xo, yo, i, j);
            }
            lemma_grid_ext(dest@, expected);
        }
    }

    /// An independent copy of the `width` by `height` rectangle whose top-left
    /// corner is at `(x_off, y_off)`. Cells of the rectangle that lie past the
    /// edge of `self` are off.
    pub fn sub_view(&self, x_off: usize, y_off: usize, width: usize, height: usize) -> (r: Pixmap)
        requires
            self.wf(),
            width * height <= usize::MAX,
        ensures
            r.wf(),
            r@ == window(self@, x_off as int, y_off as int, width as nat, height as nat),
    {
        let ghost g = self@;
        let mut r = Pixmap::new(width, height, false);
        let mut y: usize = 0;
        while y < height
            invariant
                self.wf(),
                self@ == g,
                r.wf(),
                y <= height,
                r@.width == width,
                r@.height == height,
                forall|i: int, j: int|
                    #![trigger r@.at(i, j)]
                    r@.in_bounds(i, j) ==> r@.at(i, j) == (j < y && g.in_bounds(
                        i + x_off,
                        j + y_off,
                    ) && g.at(i + x_off, j + y_off)),
            decreases height - y,
        {
            let mut x: usize = 0;
            while x < width
                invariant
                    self.wf(),
                    self@ == g,
                    r.wf(),
                    y < height,
                    x <= width,
                    r@.width == width,
                    r@.height == height,
                    forall|i: int, j: int|
                        #![trigger r@.at(i, j)]
                        r@.in_bounds(i, j) ==> r@.at(i, j) == ((j < y || (j == y && i
                            < x)) && g.in_bounds(i + x_off, j + y_off) && g.at(
                            i + x_off,
                            j + y_off,
                        )),
                decreases width - x,
            {
                let inside = x_off < self.width && x < self.width - x_off && y_off < self.height
                    && y < self.height - y_off;
                if inside && self.get(x_off + x, y_off + y) {
                    r.set(x, y, true);
                }
                x += 1;
            }
            y += 1;
        }
        proof {
            let expected = window(g, x_off as int, y_off as int, width as nat, height as nat);
            assert forall|i: int, j: int| #[trigger] r@.in_bounds(i, j) implies r@.at(i, j)
                == expected.at(i, j) by {
                lemma_window_at(g, x_off as int, y_off as int, width as nat, height as nat, i, j);
            }
            lemma_grid_ext(r@, expected);
        }
        r
    }
}

impl Data for Pixmap {
    open spec fn ready(&self) -> bool {
        self.wf()
    }

    open spec fn image(&self) -> GridModel {
        self@
    }

    fn get_dimension(&self) -> (r: (usize, usize)) {
        (self.width, self.height)
    }

    fn get_point(&self, x: usize, y: usize) -> (r: bool) {
        self.get(x, y)
    }
}

} // verus!
