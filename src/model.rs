//! Mathematical model of a boolean grid, and the two operations the library
//! is built around: substituting one grid into the on-cells of another, and
//! iterating that substitution to obtain a fractal.
use vstd::arithmetic::div_mod::lemma_fundamental_div_mod_converse;
use vstd::prelude::*;

verus! {

/// A grid as a value: its dimensions and its cells in row-major order.
pub struct GridModel {
    pub width: nat,
    pub height: nat,
    pub cells: Seq<bool>,
}

impl GridModel {
    /// The cell buffer holds exactly `width * height` entries.
    pub open spec fn wf(self) -> bool {
        self.cells.len() == self.width * self.height
    }

    pub open spec fn in_bounds(self, x: int, y: int) -> bool {
        0 <= x < self.width && 0 <= y < self.height
    }

    /// The cell in column `x` of row `y`.
    pub open spec fn at(self, x: int, y: int) -> bool {
        self.cells[y * self.width + x]
    }

    /// Same dimensions and the same value in every cell.
    pub open spec fn same_cells(self, other: GridModel) -> bool {
        &&& self.width == other.width
        &&& self.height == other.height
        &&& forall|x: int, y: int| #[trigger]
            self.in_bounds(x, y) ==> self.at(x, y) == other.at(x, y)
    }

    /// No cell is on.
    pub open spec fn all_off(self) -> bool {
        forall|x: int, y: int| #[trigger] self.in_bounds(x, y) ==> !self.at(x, y)
    }
}

/// The grid of the given dimensions whose cell `(x, y)` is `f(x, y)`.
pub open spec fn grid_from_fn(width: nat, height: nat, f: spec_fn(int, int) -> bool) -> GridModel {
    GridModel {
        width,
        height,
        cells: Seq::new(
            width * height,
            |i: int| f(i % (width as int), i / (width as int)),
        ),
    }
}

/// `dest` with every on-cell of `src` merged in at offset `(x_off, y_off)`;
/// off-cells of `src` leave `dest` as it was.
pub open spec fn blit(dest: GridModel, src: GridModel, x_off: int, y_off: int) -> GridModel {
    grid_from_fn(
        dest.width,
        dest.height,
        |x: int, y: int|
            dest.at(x, y) || (src.in_bounds(x - x_off, y - y_off) && src.at(x - x_off, y - y_off)),
    )
}

/// The `width` by `height` rectangle of `g` whose top-left corner is at
/// `(x_off, y_off)`; cells that fall outside `g` read as off.
pub open spec fn window(g: GridModel, x_off: int, y_off: int, width: nat, height: nat) -> GridModel {
    grid_from_fn(
        width,
        height,
        |x: int, y: int| g.in_bounds(x + x_off, y + y_off) && g.at(x + x_off, y + y_off),
    )
}

/// `base` raised to `exp`.
pub open spec fn power(base: nat, exp: nat) -> nat
    decreases exp,
{
    if exp == 0 {
        1
    } else {
        base * power(base, (exp - 1) as nat)
    }
}

/// Magnifies `outer` by the size of `inner`: each on-cell of `outer` becomes a
/// copy of `inner`, each off-cell an all-off block of the same size.
pub open spec fn substitute(outer: GridModel, inner: GridModel) -> GridModel {
    grid_from_fn(
        outer.width * inner.width,
        outer.height * inner.height,
        |x: int, y: int|
            outer.at(x / (inner.width as int), y / (inner.height as int)) && inner.at(
                x % (inner.width as int),
                y % (inner.height as int),
            ),
    )
}

/// The fractal of `brush` at `depth`, by plain recursive substitution: depth 0
/// and depth 1 are the brush itself, and depth `d > 1` puts the fractal of
/// depth `d - 1` into every on-cell of the brush.
pub open spec fn expand(brush: GridModel, depth: nat) -> GridModel
    decreases depth,
{
    if depth <= 1 {
        brush
    } else {
        substitute(brush, expand(brush, (depth - 1) as nat))
    }
}

/// Width of the fractal of a brush `width` wide: the brush's own width at
/// depth 0, `width^depth` beyond.
pub open spec fn fractal_side(side: nat, depth: nat) -> nat {
    if depth == 0 {
        side
    } else {
        power(side, depth)
    }
}

/// Row-major addressing: `(x, y)` maps to a unique index below `w * h`, from
/// which `x` and `y` come back by remainder and quotient.
pub proof fn lemma_index(w: nat, h: nat, x: int, y: int)
    requires
        0 <= x < w,
        0 <= y < h,
    ensures
        0 <= y * w + x < w * h,
        (y * w + x) % (w as int) == x,
        (y * w + x) / (w as int) == y,
{
    lemma_fundamental_div_mod_converse(y * w + x, w as int, y, x);
    assert(0 <= y * w) by (nonlinear_arith)
        requires
            0 <= y,
            0 <= w,
    ;
    assert(y * w + x < w * h) by (nonlinear_arith)
        requires
            0 <= x < w,
            0 <= y < h,
    ;
}

/// Every index below `w * h` is the row-major address of an in-bounds cell.
pub proof fn lemma_index_inverse(w: nat, h: nat, i: int)
    requires
        0 <= i < w * h,
    ensures
        w > 0,
        0 <= i % (w as int) < w,
        0 <= i / (w as int) < h,
        i == (i / (w as int)) * w + i % (w as int),
{
    if w == 0 {
        assert(w * h == 0);
    }
    let q = i / (w as int);
    let r = i % (w as int);
    vstd::arithmetic::div_mod::lemma_fundamental_div_mod(i, w as int);
    vstd::arithmetic::div_mod::lemma_mod_bound(i, w as int);
    vstd::arithmetic::div_mod::lemma_div_pos_is_pos(i, w as int);
    assert(i == q * w + r) by (nonlinear_arith)
        requires
            i == w * q + r,
    ;
    assert(q < h) by (nonlinear_arith)
        requires
            i == q * w + r,
            0 <= r,
            i < w * h,
            0 <= q,
            w > 0,
    ;
}

/// Reading a cell of a grid built from a function gives the function's value.
pub proof fn lemma_from_fn_at(width: nat, height: nat, f: spec_fn(int, int) -> bool, x: int, y: int)
    requires
        0 <= x < width,
        0 <= y < height,
    ensures
        grid_from_fn(width, height, f).wf(),
        grid_from_fn(width, height, f).at(x, y) == f(x, y),
{
    lemma_index(width, height, x, y);
}

/// A cell of a substitution: the outer cell that covers it, and the inner
/// cell at the same place within its block.
pub proof fn lemma_substitute_at(outer: GridModel, inner: GridModel, x: int, y: int)
    requires
        0 <= x < outer.width * inner.width,
        0 <= y < outer.height * inner.height,
    ensures
        substitute(outer, inner).wf(),
        substitute(outer, inner).at(x, y) == (outer.at(
            x / (inner.width as int),
            y / (inner.height as int),
        ) && inner.at(x % (inner.width as int), y % (inner.height as int))),
{
    lemma_index(outer.width * inner.width, outer.height * inner.height, x, y);
}

/// A cell after a blit: on if it was on before, or if it is an on-cell of
/// the blitted grid.
pub proof fn lemma_blit_at(dest: GridModel, src: GridModel, x_off: int, y_off: int, x: int, y: int)
    requires
        dest.in_bounds(x, y),
    ensures
        blit(dest, src, x_off, y_off).wf(),
        blit(dest, src, x_off, y_off).at(x, y) == (dest.at(x, y) || (src.in_bounds(
            x - x_off,
            y - y_off,
        ) && src.at(x - x_off, y - y_off))),
{
    lemma_index(dest.width, dest.height, x, y);
}

/// A cell of a window: the cell of the grid under it, off past the grid's
/// edge.
pub proof fn lemma_window_at(
    g: GridModel,
    x_off: int,
    y_off: int,
    width: nat,
    height: nat,
    x: int,
    y: int,
)
    requires
        0 <= x < width,
        0 <= y < height,
    ensures
        window(g, x_off, y_off, width, height).wf(),
        window(g, x_off, y_off, width, height).at(x, y) == (g.in_bounds(x + x_off, y + y_off)
            && g.at(x + x_off, y + y_off)),
{
    lemma_index(width, height, x, y);
}

/// Two well-formed grids with the same dimensions and the same cells are equal.
pub proof fn lemma_grid_ext(a: GridModel, b: GridModel)
    requires
        a.wf(),
        b.wf(),
        a.same_cells(b),
    ensures
        a == b,
{
    assert forall|i: int| 0 <= i < a.cells.len() implies a.cells[i] == b.cells[i] by {
        lemma_index_inverse(a.width, a.height, i);
        let x = i % (a.width as int);
        let y = i / (a.width as int);
        assert(a.in_bounds(x, y));
    }
    assert(a.cells =~= b.cells);
}

} // verus!
