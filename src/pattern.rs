//! Patterns as text: one row per line, a space for an off cell and any other
//! character for an on cell.
use crate::error::GridError;
use crate::model::{grid_from_fn, lemma_from_fn_at, lemma_grid_ext, GridModel};
use crate::pixmap::Pixmap;
use vstd::prelude::*;

verus! {

/// The character that marks an off cell.
pub const BLANK: char = ' ';

/// The characters of each row.
pub open spec fn rows_of(rows: Seq<Vec<char>>) -> Seq<Seq<char>> {
    rows.map_values(|r: Vec<char>| r@)
}

/// Length of the longest row, 0 when there is none.
pub open spec fn max_row_len(rows: Seq<Seq<char>>) -> nat
    decreases rows.len(),
{
    if rows.len() == 0 {
        0
    } else {
        let rest = max_row_len(rows.drop_last());
        if rows.last().len() > rest {
            rows.last().len()
        } else {
            rest
        }
    }
}

/// The grid that a pattern describes: as many rows as lines, as many columns
/// as the longest line, and a cell on where its line has a character other
/// than a blank. Short lines are off past their end.
pub open spec fn parse_pattern(rows: Seq<Seq<char>>) -> GridModel {
    grid_from_fn(
        max_row_len(rows),
        rows.len(),
        |x: int, y: int| x < rows[y].len() && rows[y][x] != BLANK,
    )
}

/// A grid written as a pattern: `on` for an on cell, a blank for an off cell.
pub open spec fn render_pattern(g: GridModel, on: char) -> Seq<Seq<char>> {
    Seq::new(
        g.height,
        |y: int|
            Seq::new(
                g.width,
                |x: int|
                    if g.at(x, y) {
                        on
                    } else {
                        BLANK
                    },
            ),
    )
}

/// The rows right-padded with blanks to `width` characters.
pub open spec fn pad_rows(rows: Seq<Seq<char>>, width: nat) -> Seq<Seq<char>> {
    Seq::new(
        rows.len(),
        |y: int|
            Seq::new(
                width,
                |x: int|
                    if x < rows[y].len() {
                        rows[y][x]
                    } else {
                        BLANK
                    },
            ),
    )
}

/// No row is longer than the longest, and some row is that long.
pub proof fn lemma_max_row_len(rows: Seq<Seq<char>>)
    ensures
        forall|y: int| 0 <= y < rows.len() ==> #[trigger] rows[y].len() <= max_row_len(rows),
        rows.len() == 0 ==> max_row_len(rows) == 0,
        rows.len() > 0 ==> exists|y: int| 0 <= y < rows.len() && #[trigger] rows[y].len() == max_row_len(rows),
    decreases rows.len(),
{
    if rows.len() > 0 {
        let init = rows.drop_last();
        lemma_max_row_len(init);
        assert forall|y: int| 0 <= y < rows.len() implies #[trigger] rows[y].len() <= max_row_len(
            rows,
        ) by {
            if y < rows.len() - 1 {
                assert(rows[y] == init[y]);
            }
        }
        if rows.last().len() >= max_row_len(init) {
            assert(rows[rows.len() - 1].len() == max_row_len(rows));
        } else {
            let y = choose|y: int| 0 <= y < init.len() && #[trigger] init[y].len() == max_row_len(init);
            assert(rows[y] == init[y]);
        }
    }
}

impl Pixmap {
    /// Reads a pattern into a grid. A pattern whose grid would have more cells
    /// than `usize` can count is refused.
    pub fn from_pattern(rows: &Vec<Vec<char>>) -> (r: Result<Pixmap, GridError>)
        ensures
            (r is Err) <==> max_row_len(rows_of(rows@)) * rows@.len() > usize::MAX,
            r matches Err(e) ==> e == GridError::TooLarge,
            r matches Ok(g) ==> g.wf() && g@ == parse_pattern(rows_of(rows@)),
    {
        let ghost text = rows_of(rows@);
        let height = rows.len();
        let mut width: usize = 0;
        let mut i: usize = 0;
        while i < height
            invariant
                height == rows@.len(),
                text == rows_of(rows@),
                i <= height,
                width == max_row_len(text.subrange(0, i as int)),
            decreases height - i,
        {
            proof {
                assert(text.subrange(0, i + 1).drop_last() =~= text.subrange(0, i as int));
            }
            let len = rows[i].len();
            if len > width {
                width = len;
            }
            i += 1;
        }
        assert(text.subrange(0, height as int) =~= text);
        if width.checked_mul(height).is_none() {
            return Err(GridError::TooLarge);
        }
        proof {
            lemma_max_row_len(text);
        }
        let mut g = Pixmap::new(width, height, false);
        let mut y: usize = 0;
        while y < height
            invariant
                height == rows@.len(),
                text == rows_of(rows@),
                width == max_row_len(text),
                forall|j: int| 0 <= j < text.len() ==> #[trigger] text[j].len() <= width,
                y <= height,
                g.wf(),
                g@.width == width,
                g@.height == height,
                forall|i: int, j: int|
                    #![trigger g@.at(i, j)]
                    g@.in_bounds(i, j) ==> g@.at(i, j) == (j < y && i < text[j].len() && text[j][i]
                        != BLANK),
            decreases height - y,
        {
            let row = &rows[y];
            let mut x: usize = 0;
            while x < row.len()
                invariant
                    height == rows@.len(),
                    text == rows_of(rows@),
                    width == max_row_len(text),
                    forall|j: int| 0 <= j < text.len() ==> #[trigger] text[j].len() <= width,
                    y < height,
                    row@ == text[y as int],
                    x <= row@.len(),
                    g.wf(),
                    g@.width == width,
                    g@.height == height,
                    forall|i: int, j: int|
                        #![trigger g@.at(i, j)]
                        g@.in_bounds(i, j) ==> g@.at(i, j) == ((j < y || (j == y && i < x)) && i
                            < text[j].len() && text[j][i] != BLANK),
                decreases row@.len() - x,
            {
                assert(text[y as int].len() <= width);
                if row[x] != BLANK {
                    g.set(x, y, true);
                }
                x += 1;
            }
            y += 1;
        }
        proof {
            let expected = parse_pattern(text);
            assert forall|i: int, j: int| #[trigger] g@.in_bounds(i, j) implies g@.at(i, j)
                == expected.at(i, j) by {
                lemma_from_fn_at(
                    width as nat,
                    height as nat,
                    |x: int, y: int| x < text[y].len() && text[y][x] != BLANK,
                    i,
                    j,
                );
            }
            lemma_grid_ext(g@, expected);
        }
        Ok(g)
    }

    /// The grid written as a pattern, one row per grid row, with `on` for each
    /// on cell and a blank for each off cell.
    pub fn to_pattern(&self, on: char) -> (r: Vec<Vec<char>>)
        requires
            self.wf(),
        ensures
            rows_of(r@) == render_pattern(self@, on),
    {
        let ghost g = self@;
        let width = self.width();
        let height = self.height();
        let mut out: Vec<Vec<char>> = Vec::new();
        let mut y: usize = 0;
        while y < height
            invariant
                self.wf(),
                self@ == g,
                width == g.width,
                height == g.height,
                y <= height,
                out@.len() == y,
                forall|j: int| 0 <= j < y ==> #[trigger] out@[j]@ == render_pattern(g, on)[j],
            decreases height - y,
        {
            let mut row: Vec<char> = Vec::new();
            let mut x: usize = 0;
            while x < width
                invariant
                    self.wf(),
                    self@ == g,
                    width == g.width,
                    height == g.height,
                    y < height,
                    x <= width,
                    row@.len() == x,
                    forall|i: int| 0 <= i < x ==> #[trigger] row@[i] == (if g.at(i, y as int) {
                        on
                    } else {
                        BLANK
                    }),
                decreases width - x,
            {
                if self.get(x, y) {
                    row.push(on);
                } else {
                    row.push(BLANK);
                }
                x += 1;
            }
            assert(row@ =~= render_pattern(g, on)[y as int]);
            out.push(row);
            y += 1;
        }
        assert(rows_of(out@) =~= render_pattern(g, on));
        out
    }
}

/// Reading a pattern and writing it back with the same glyph for on cells
/// gives back its lines, padded with blanks to the longest, provided every
/// character of the pattern is a blank or that glyph.
pub proof fn lemma_pattern_round_trip(rows: Seq<Seq<char>>, on: char)
    requires
        on != BLANK,
        forall|y: int, x: int|
            0 <= y < rows.len() && 0 <= x < rows[y].len() ==> #[trigger] rows[y][x] == BLANK
                || rows[y][x] == on,
    ensures
        render_pattern(parse_pattern(rows), on) == pad_rows(rows, max_row_len(rows)),
{
    let g = parse_pattern(rows);
    let lhs = render_pattern(g, on);
    let rhs = pad_rows(rows, max_row_len(rows));
    assert forall|y: int| 0 <= y < rows.len() implies #[trigger] lhs[y] == rhs[y] by {
        assert forall|x: int| 0 <= x < max_row_len(rows) implies lhs[y][x] == rhs[y][x] by {
            lemma_from_fn_at(
                max_row_len(rows),
                rows.len(),
                |x: int, y: int| x < rows[y].len() && rows[y][x] != BLANK,
                x,
                y,
            );
        }
        assert(lhs[y] =~= rhs[y]);
    }
    assert(lhs =~= rhs);
}

/// Writing a grid as a pattern and reading it back gives the same grid, for
/// any grid that has a row or has no columns (the rows carry the width).
pub proof fn lemma_grid_round_trip(g: GridModel, on: char)
    requires
        g.wf(),
        on != BLANK,
        g.height > 0 || g.width == 0,
    ensures
        parse_pattern(render_pattern(g, on)) == g,
{
    let text = render_pattern(g, on);
    let back = parse_pattern(text);
    lemma_max_row_len(text);
    if g.height > 0 {
        let y = choose|y: int| 0 <= y < text.len() && #[trigger] text[y].len() == max_row_len(text);
        assert(text[y].len() == g.width);
    }
    assert(back.width == g.width);
    assert forall|x: int, y: int| #[trigger] back.in_bounds(x, y) implies back.at(x, y) == g.at(
        x,
        y,
    ) by {
        lemma_from_fn_at(
            max_row_len(text),
            text.len(),
            |x: int, y: int| x < text[y].len() && text[y][x] != BLANK,
            x,
            y,
        );
    }
    lemma_grid_ext(back, g);
}


} // verus!
