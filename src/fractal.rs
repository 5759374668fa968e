//! Builds the fractal of a brush: the brush stamped into each of its own
//! on-cells, `depth` levels deep.
//!
//! Every on-cell of the brush receives the same sub-pattern, so each level
//! computes that sub-pattern once and blits it into place for every on-cell.
use crate::error::GridError;
use crate::model::{
    expand, fractal_side, grid_from_fn, lemma_blit_at, lemma_from_fn_at, lemma_grid_ext, lemma_substitute_at,
    lemma_window_at, power, substitute, window, GridModel,
};
use crate::pixmap::Pixmap;
use vstd::arithmetic::div_mod::{lemma_fundamental_div_mod, lemma_fundamental_div_mod_converse};
use vstd::prelude::*;

verus! {

/// `base^exp` is at least `base^k` for `k <= exp`, when `base >= 1`.
pub proof fn lemma_power_monotone(base: nat, k: nat, exp: nat)
    requires
        base >= 1,
        k <= exp,
    ensures
        1 <= power(base, k) <= power(base, exp),
    decreases exp,
{
    if exp > k {
        lemma_power_monotone(base, k, (exp - 1) as nat);
        assert(power(base, (exp - 1) as nat) <= base * power(base, (exp - 1) as nat))
            by (nonlinear_arith)
            requires
                base >= 1,
                power(base, (exp - 1) as nat) >= 1,
        ;
    } else if k > 0 {
        lemma_power_monotone(base, (k - 1) as nat, (k - 1) as nat);
        assert(base * power(base, (k - 1) as nat) >= 1) by (nonlinear_arith)
            requires
                base >= 1,
                power(base, (k - 1) as nat) >= 1,
        ;
    }
}

/// The fractal of a well-formed brush is well formed and `width^depth` by
/// `height^depth` for every depth from 1 on.
pub proof fn lemma_expand_dims(brush: GridModel, depth: nat)
    requires
        brush.wf(),
        depth >= 1,
    ensures
        expand(brush, depth).wf(),
        expand(brush, depth).width == power(brush.width, depth),
        expand(brush, depth).height == power(brush.height, depth),
    decreases depth,
{
    if depth > 1 {
        lemma_expand_dims(brush, (depth - 1) as nat);
        assert(expand(brush, depth) == substitute(brush, expand(brush, (depth - 1) as nat)));
    } else {
        assert(power(brush.width, 0) == 1);
        assert(power(brush.height, 0) == 1);
        assert(power(brush.width, 1) == brush.width * power(brush.width, 0));
        assert(power(brush.height, 1) == brush.height * power(brush.height, 0));
    }
}

/// `base^exp` when it fits in `usize`, `None` when it does not.
fn checked_power(base: usize, exp: usize) -> (r: Option<usize>)
    ensures
        r is None <==> power(base as nat, exp as nat) > usize::MAX,
        r matches Some(v) ==> v == power(base as nat, exp as nat),
{
    let mut acc: usize = 1;
    let mut i: usize = 0;
    while i < exp
        invariant
            i <= exp,
            acc == power(base as nat, i as nat),
        decreases exp - i,
    {
        match acc.checked_mul(base) {
            Some(v) => {
                assert(v == base * acc) by (nonlinear_arith)
                    requires
                        v == acc * base,
                ;
                acc = v;
            },
            None => {
                proof {
                    assert(base >= 1) by (nonlinear_arith)
                        requires
                            acc * base > usize::MAX,
                            acc <= usize::MAX,
                    ;
                    assert(power(base as nat, (i + 1) as nat) == base * acc);
                    assert(base * acc == acc * base) by (nonlinear_arith);
                    lemma_power_monotone(base as nat, (i + 1) as nat, exp as nat);
                }
                return None;
            },
        }
        i += 1;
    }
    Some(acc)
}

/// Facts about the block of side `s` that starts at `b * s`: a coordinate
/// lies in it exactly when its quotient by `s` is `b`, and its offset inside
/// the block is then its remainder.
proof fn lemma_block(v: int, s: int, b: int)
    requires
        v >= 0,
        s > 0,
    ensures
        (0 <= v - b * s < s) <==> v / s == b,
        v / s == b ==> v % s == v - b * s,
{
    lemma_fundamental_div_mod(v, s);
    vstd::arithmetic::div_mod::lemma_mod_bound(v, s);
    if 0 <= v - b * s < s {
        lemma_fundamental_div_mod_converse(v, s, b, v - b * s);
    }
    if v / s == b {
        assert(v == b * s + v % s) by (nonlinear_arith)
            requires
                v == s * (v / s) + v % s,
                v / s == b,
        ;
    }
}

/// A coordinate below `n` blocks of side `s` lies in one of those blocks.
pub proof fn lemma_quotient_below(v: int, s: int, n: int)
    requires
        0 <= v < n * s,
        s > 0,
    ensures
        0 <= v / s < n,
{
    lemma_fundamental_div_mod(v, s);
    vstd::arithmetic::div_mod::lemma_mod_bound(v, s);
    vstd::arithmetic::div_mod::lemma_div_pos_is_pos(v, s);
    assert(v / s < n) by (nonlinear_arith)
        requires
            v == s * (v / s) + v % s,
            0 <= v % s,
            v < n * s,
            s > 0,
    ;
}

/// The fractal of `brush` at `depth >= 1`, `width` by `height`, built by
/// blitting one shared sub-pattern into the block of every on-cell.
fn draw_pixmap(brush: &Pixmap, depth: usize, width: usize, height: usize) -> (r: Pixmap)
    requires
        brush.wf(),
        brush@.width > 0,
        brush@.height > 0,
        depth >= 1,
        width == power(brush@.width, depth as nat),
        height == power(brush@.height, depth as nat),
        width * height <= usize::MAX,
    ensures
        r.wf(),
        r@ == expand(brush@, depth as nat),
    decreases depth,
{
    let ghost b = brush@;
    let mut result = Pixmap::new(width, height, false);
    let ghost empty = result@;
    if depth == 1 {
        proof {
            lemma_expand_dims(b, 1);
        }
        brush.copy_to(&mut result, 0, 0);
        proof {
            assert forall|x: int, y: int| #[trigger] result@.in_bounds(x, y) implies result@.at(
                x,
                y,
            ) == b.at(x, y) by {
                assert(empty.in_bounds(x, y));
                lemma_blit_at(empty, b, 0, 0, x, y);
            }
            lemma_grid_ext(result@, b);
        }
        return result;
    }
    let bw = brush.width();
    let bh = brush.height();
    let step_x = width / bw;
    let step_y = height / bh;
    let ghost sub = expand(b, (depth - 1) as nat);
    proof {
        lemma_expand_dims(b, (depth - 1) as nat);
        lemma_power_monotone(b.width, (depth - 1) as nat, (depth - 1) as nat);
        lemma_power_monotone(b.height, (depth - 1) as nat, (depth - 1) as nat);
        assert(width == bw * sub.width);
        assert(height == bh * sub.height);
        assert(width == sub.width * bw) by (nonlinear_arith)
            requires
                width == bw * sub.width,
        ;
        assert(height == sub.height * bh) by (nonlinear_arith)
            requires
                height == bh * sub.height,
        ;
        lemma_fundamental_div_mod_converse(width as int, bw as int, sub.width as int, 0);
        lemma_fundamental_div_mod_converse(height as int, bh as int, sub.height as int, 0);
        assert(step_x * step_y <= width * height) by (nonlinear_arith)
            requires
                width == bw * step_x,
                height == bh * step_y,
                bw >= 1,
                bh >= 1,
                step_x >= 1,
                step_y >= 1,
        ;
    }
    assert(step_x == sub.width && step_y == sub.height);
    // The sub-pattern, computed on the first on-cell and reused for the rest.
    let mut cache: Option<Pixmap> = None;
    let mut by: usize = 0;
    while by < bh
        invariant
            brush.wf(),
            brush@ == b,
            bw == b.width,
            bh == b.height,
            1 < depth,
            sub == expand(b, (depth - 1) as nat),
            sub.wf(),
            step_x == sub.width,
            step_y == sub.height,
            step_x == power(b.width, (depth - 1) as nat),
            step_y == power(b.height, (depth - 1) as nat),
            step_x >= 1,
            step_y >= 1,
            width == bw * step_x,
            height == bh * step_y,
            width * height <= usize::MAX,
            step_x * step_y <= usize::MAX,
            by <= bh,
            result.wf(),
            result@.width == width,
            result@.height == height,
            cache matches Some(c) ==> c.wf() && c@ == sub,
            forall|x: int, y: int|
                #![trigger result@.at(x, y)]
                result@.in_bounds(x, y) ==> result@.at(x, y) == (y / (step_y as int) < by && b.at(
                    x / (step_x as int),
                    y / (step_y as int),
                ) && sub.at(x % (step_x as int), y % (step_y as int))),
        decreases bh - by,
    {
        let mut bx: usize = 0;
        while bx < bw
            invariant
                brush.wf(),
                brush@ == b,
                bw == b.width,
                bh == b.height,
                1 < depth,
                sub == expand(b, (depth - 1) as nat),
                sub.wf(),
                step_x == sub.width,
                step_y == sub.height,
                step_x == power(b.width, (depth - 1) as nat),
                step_y == power(b.height, (depth - 1) as nat),
                step_x >= 1,
                step_y >= 1,
                width == bw * step_x,
                height == bh * step_y,
                width * height <= usize::MAX,
                step_x * step_y <= usize::MAX,
                by < bh,
                bx <= bw,
                result.wf(),
                result@.width == width,
                result@.height == height,
                cache matches Some(c) ==> c.wf() && c@ == sub,
                forall|x: int, y: int|
                    #![trigger result@.at(x, y)]
                    result@.in_bounds(x, y) ==> result@.at(x, y) == ((y / (step_y as int) < by
                        || (y / (step_y as int) == by && x / (step_x as int) < bx)) && b.at(
                        x / (step_x as int),
                        y / (step_y as int),
                    ) && sub.at(x % (step_x as int), y % (step_y as int))),
            decreases bw - bx,
        {
            if brush.get(bx, by) {
                if cache.is_none() {
                    cache = Some(draw_pixmap(brush, depth - 1, step_x, step_y));
                }
                proof {
                    assert(bx * step_x + step_x <= width) by (nonlinear_arith)
                        requires
                            bx < bw,
                            width == bw * step_x,
                            step_x >= 1,
                    ;
                    assert(by * step_y + step_y <= height) by (nonlinear_arith)
                        requires
                            by < bh,
                            height == bh * step_y,
                            step_y >= 1,
                    ;
                }
                let x_off = bx * step_x;
                let y_off = by * step_y;
                let ghost before = result@;
                match &cache {
                    Some(c) => {
                        c.copy_to(&mut result, x_off, y_off);
                    },
                    None => {},
                }
                proof {
                    assert forall|x: int, y: int|
                        #![trigger result@.at(x, y)]
                        result@.in_bounds(x, y) implies result@.at(x, y) == ((y / (step_y as int)
                            < by || (y / (step_y as int) == by && x / (step_x as int) < bx + 1))
                            && b.at(x / (step_x as int), y / (step_y as int)) && sub.at(
                            x % (step_x as int),
                            y % (step_y as int),
                        )) by {
                        let xo = x_off as int;
                        let yo = y_off as int;
                        lemma_blit_at(before, sub, xo, yo, x, y);
                        lemma_block(x, step_x as int, bx as int);
                        lemma_block(y, step_y as int, by as int);
                    }
                }
            } else {
                proof {
                    assert forall|x: int, y: int|
                        #![trigger result@.at(x, y)]
                        result@.in_bounds(x, y) implies result@.at(x, y) == ((y / (step_y as int)
                            < by || (y / (step_y as int) == by && x / (step_x as int) < bx + 1))
                            && b.at(x / (step_x as int), y / (step_y as int)) && sub.at(
                            x % (step_x as int),
                            y % (step_y as int),
                        )) by {
                        vstd::arithmetic::div_mod::lemma_div_pos_is_pos(x, step_x as int);
                    }
                }
            }
            bx += 1;
        }
        proof {
            assert forall|x: int, y: int|
                #![trigger result@.at(x, y)]
                result@.in_bounds(x, y) implies result@.at(x, y) == (y / (step_y as int) < by + 1
                    && b.at(x / (step_x as int), y / (step_y as int)) && sub.at(
                    x % (step_x as int),
                    y % (step_y as int),
                )) by {
                lemma_quotient_below(x, step_x as int, bw as int);
            }
        }
        by += 1;
    }
    proof {
        let expected = substitute(b, sub);
        assert forall|x: int, y: int| #[trigger] result@.in_bounds(x, y) implies result@.at(x, y)
            == expected.at(x, y) by {
            lemma_substitute_at(b, sub, x, y);
            lemma_quotient_below(y, step_y as int, bh as int);
        }
        lemma_expand_dims(b, depth as nat);
        lemma_grid_ext(result@, expected);
    }
    result
}

/// The fractal of `brush` at `depth`: the brush itself at depth 0, and a
/// `width^depth` by `height^depth` grid beyond, each level built once and
/// blitted into the block of every on-cell of the brush.
///
/// A brush with no columns or no rows is refused, and so is a depth whose
/// grid would have more cells than `usize` can count.
pub fn draw(brush: &Pixmap, depth: usize) -> (r: Result<Pixmap, GridError>)
    requires
        brush.wf(),
    ensures
        (r matches Err(GridError::ZeroDimension)) <==> (brush@.width == 0 || brush@.height == 0),
        (r matches Err(GridError::TooLarge)) <==> (brush@.width > 0 && brush@.height > 0
            && fractal_side(brush@.width, depth as nat) * fractal_side(brush@.height, depth as nat)
            > usize::MAX),
        !(r matches Err(GridError::OutOfRange)),
        r matches Ok(g) ==> {
            &&& g.wf()
            &&& g@ == expand(brush@, depth as nat)
            &&& g@.width == fractal_side(brush@.width, depth as nat)
            &&& g@.height == fractal_side(brush@.height, depth as nat)
        },
{
    let bw = brush.width();
    let bh = brush.height();
    if bw == 0 || bh == 0 {
        return Err(GridError::ZeroDimension);
    }
    if depth == 0 {
        let copy = brush.sub_view(0, 0, bw, bh);
        proof {
            let b = brush@;
            assert forall|x: int, y: int| #[trigger] copy@.in_bounds(x, y) implies copy@.at(x, y)
                == b.at(x, y) by {
                lemma_window_at(b, 0, 0, b.width, b.height, x, y);
            }
            lemma_grid_ext(copy@, b);
        }
        return Ok(copy);
    }
    proof {
        lemma_power_monotone(bw as nat, 0, depth as nat);
        lemma_power_monotone(bh as nat, 0, depth as nat);
    }
    let width = match checked_power(bw, depth) {
        Some(v) => v,
        None => {
            proof {
                assert(power(bw as nat, depth as nat) * power(bh as nat, depth as nat) >= power(
                    bw as nat,
                    depth as nat,
                )) by (nonlinear_arith)
                    requires
                        power(bh as nat, depth as nat) >= 1,
                ;
            }
            return Err(GridError::TooLarge);
        },
    };
    let height = match checked_power(bh, depth) {
        Some(v) => v,
        None => {
            proof {
                assert(power(bw as nat, depth as nat) * power(bh as nat, depth as nat) >= power(
                    bh as nat,
                    depth as nat,
                )) by (nonlinear_arith)
                    requires
                        power(bw as nat, depth as nat) >= 1,
                ;
            }
            return Err(GridError::TooLarge);
        },
    };
    if width.checked_mul(height).is_none() {
        return Err(GridError::TooLarge);
    }
    let g = draw_pixmap(brush, depth, width, height);
    proof {
        lemma_expand_dims(brush@, depth as nat);
    }
    Ok(g)
}

/// One point of the fractal of `brush` at `depth`, found by descending the
/// levels one brush cell at a time, without building any grid.
pub fn expanded_point(brush: &Pixmap, depth: usize, x: usize, y: usize) -> (r: bool)
    requires
        brush.wf(),
        brush@.width > 0,
        brush@.height > 0,
        x < fractal_side(brush@.width, depth as nat),
        y < fractal_side(brush@.height, depth as nat),
    ensures
        r == expand(brush@, depth as nat).at(x as int, y as int),
    decreases depth,
{
    let ghost b = brush@;
    if depth <= 1 {
        proof {
            lemma_expand_dims(b, 1);
        }
        return brush.get(x, y);
    }
    let ghost sub = expand(b, (depth - 1) as nat);
    proof {
        lemma_expand_dims(b, (depth - 1) as nat);
        lemma_power_monotone(b.width, 0, (depth - 1) as nat);
        lemma_power_monotone(b.height, 0, (depth - 1) as nat);
        assert(power(b.width, depth as nat) == b.width * sub.width);
        assert(power(b.height, depth as nat) == b.height * sub.height);
    }
    // Which brush cell holds the point, and where the point lies in its block.
    let (cell_x, inner_x) = match checked_power(brush.width(), depth - 1) {
        Some(step) => {
            proof {
                lemma_quotient_below(x as int, step as int, b.width as int);
                vstd::arithmetic::div_mod::lemma_mod_bound(x as int, step as int);
            }
            (x / step, x % step)
        },
        None => {
            proof {
                vstd::arithmetic::div_mod::lemma_basic_div(x as int, sub.width as int);
                vstd::arithmetic::div_mod::lemma_small_mod(x as nat, sub.width);
            }
            (0, x)
        },
    };
    let (cell_y, inner_y) = match checked_power(brush.height(), depth - 1) {
        Some(step) => {
            proof {
                lemma_quotient_below(y as int, step as int, b.height as int);
                vstd::arithmetic::div_mod::lemma_mod_bound(y as int, step as int);
            }
            (y / step, y % step)
        },
        None => {
            proof {
                vstd::arithmetic::div_mod::lemma_basic_div(y as int, sub.height as int);
                vstd::arithmetic::div_mod::lemma_small_mod(y as nat, sub.height);
            }
            (0, y)
        },
    };
    proof {
        lemma_substitute_at(b, sub, x as int, y as int);
    }
    brush.get(cell_x, cell_y) && expanded_point(brush, depth - 1, inner_x, inner_y)
}

/// At depth 0 the fractal is the brush itself, cell for cell.
pub proof fn lemma_depth_zero_identity(brush: GridModel)
    ensures
        expand(brush, 0) == brush,
{
}

/// Self-similarity: from depth 2 on, the block of the fractal that belongs to
/// brush cell `(bx, by)` is the fractal of the previous depth when that cell
/// is on, and all off when it is off.
pub proof fn lemma_block_self_similar(brush: GridModel, depth: nat, bx: int, by: int)
    requires
        brush.wf(),
        brush.width > 0,
        brush.height > 0,
        depth >= 2,
        brush.in_bounds(bx, by),
    ensures
        ({
            let step_x = power(brush.width, (depth - 1) as nat);
            let step_y = power(brush.height, (depth - 1) as nat);
            window(expand(brush, depth), bx * step_x, by * step_y, step_x, step_y) == if brush.at(
                bx,
                by,
            ) {
                expand(brush, (depth - 1) as nat)
            } else {
                grid_from_fn(step_x, step_y, |x: int, y: int| false)
            }
        }),
{
    let step_x = power(brush.width, (depth - 1) as nat);
    let step_y = power(brush.height, (depth - 1) as nat);
    let sub = expand(brush, (depth - 1) as nat);
    let full = expand(brush, depth);
    let off = grid_from_fn(step_x, step_y, |x: int, y: int| false);
    let expected = if brush.at(bx, by) {
        sub
    } else {
        off
    };
    let win = window(full, bx * step_x, by * step_y, step_x, step_y);
    lemma_expand_dims(brush, (depth - 1) as nat);
    lemma_power_monotone(brush.width, 0, (depth - 1) as nat);
    lemma_power_monotone(brush.height, 0, (depth - 1) as nat);
    assert(full == substitute(brush, sub));
    assert forall|x: int, y: int| #[trigger] win.in_bounds(x, y) implies win.at(x, y)
        == expected.at(x, y) by {
        let fx = x + bx * step_x;
        let fy = y + by * step_y;
        lemma_window_at(full, bx * step_x, by * step_y, step_x, step_y, x, y);
        lemma_from_fn_at(step_x, step_y, |x: int, y: int| false, x, y);
        assert(fx < brush.width * step_x && fy < brush.height * step_y) by (nonlinear_arith)
            requires
                fx == x + bx * step_x,
                fy == y + by * step_y,
                0 <= x < step_x,
                0 <= y < step_y,
                0 <= bx < brush.width,
                0 <= by < brush.height,
        ;
        assert(0 <= bx * step_x && 0 <= by * step_y) by (nonlinear_arith)
            requires
                0 <= bx,
                0 <= by,
        ;
        lemma_substitute_at(brush, sub, fx, fy);
        lemma_block(fx, step_x as int, bx);
        lemma_block(fy, step_y as int, by);
    }
    lemma_grid_ext(win, expected);
}

/// An all-off brush gives an all-off fractal at every depth.
pub proof fn lemma_all_off_stays_off(brush: GridModel, depth: nat)
    requires
        brush.wf(),
        brush.all_off(),
    ensures
        expand(brush, depth).all_off(),
    decreases depth,
{
    if depth > 1 {
        let sub = expand(brush, (depth - 1) as nat);
        let full = expand(brush, depth);
        lemma_all_off_stays_off(brush, (depth - 1) as nat);
        lemma_expand_dims(brush, (depth - 1) as nat);
        assert(full == substitute(brush, sub));
        if brush.width > 0 && brush.height > 0 {
            lemma_power_monotone(brush.width, 0, (depth - 1) as nat);
            lemma_power_monotone(brush.height, 0, (depth - 1) as nat);
            assert forall|x: int, y: int| #[trigger] full.in_bounds(x, y) implies !full.at(x, y) by {
                lemma_substitute_at(brush, sub, x, y);
                lemma_quotient_below(x, sub.width as int, brush.width as int);
                lemma_quotient_below(y, sub.height as int, brush.height as int);
                assert(brush.in_bounds(x / (sub.width as int), y / (sub.height as int)));
            }
        } else {
            assert(full.width * full.height == 0) by (nonlinear_arith)
                requires
                    full.width == brush.width * sub.width,
                    full.height == brush.height * sub.height,
                    brush.width == 0 || brush.height == 0,
            ;
            assert forall|x: int, y: int| #[trigger] full.in_bounds(x, y) implies !full.at(x, y) by {
                assert(full.width * full.height > 0) by (nonlinear_arith)
                    requires
                        0 <= x < full.width,
                        0 <= y < full.height,
                ;
            }
        }
    }
}

/// One point of the fractal at depth `d > 1`, read level by level: the brush
/// cell whose block holds the point must be on, and the point at the same
/// place in that block must be on in the fractal of depth `d - 1`.
pub proof fn lemma_expand_point(brush: GridModel, depth: nat, x: int, y: int)
    requires
        brush.wf(),
        depth > 1,
        0 <= x < power(brush.width, depth),
        0 <= y < power(brush.height, depth),
    ensures
        ({
            let step_x = power(brush.width, (depth - 1) as nat) as int;
            let step_y = power(brush.height, (depth - 1) as nat) as int;
            expand(brush, depth).at(x, y) == (brush.at(x / step_x, y / step_y) && expand(
                brush,
                (depth - 1) as nat,
            ).at(x % step_x, y % step_y))
        }),
{
    let sub = expand(brush, (depth - 1) as nat);
    lemma_expand_dims(brush, (depth - 1) as nat);
    assert(expand(brush, depth) == substitute(brush, sub));
    lemma_substitute_at(brush, sub, x, y);
}

} // verus!
