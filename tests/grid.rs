use recimage::{Data, GridError, Pixmap};

fn grid(rows: &[&[u8]]) -> Pixmap {
    let height = rows.len();
    let width = if height == 0 { 0 } else { rows[0].len() };
    let mut g = Pixmap::new(width, height, false);
    for (y, row) in rows.iter().enumerate() {
        for (x, v) in row.iter().enumerate() {
            g.set(x, y, *v == 1);
        }
    }
    g
}

fn cells(g: &Pixmap) -> Vec<Vec<u8>> {
    (0..g.height())
        .map(|y| (0..g.width()).map(|x| g.get(x, y) as u8).collect())
        .collect()
}

#[test]
fn new_fills_every_cell() {
    let on = Pixmap::new(3, 2, true);
    assert_eq!(on.get_dimension(), (3, 2));
    assert_eq!(cells(&on), vec![vec![1, 1, 1], vec![1, 1, 1]]);
    let off = Pixmap::new(2, 3, false);
    assert_eq!(cells(&off), vec![vec![0, 0], vec![0, 0], vec![0, 0]]);
}

#[test]
fn set_changes_exactly_one_cell() {
    let mut g = Pixmap::new(3, 3, false);
    g.set(2, 1, true);
    assert_eq!(cells(&g), vec![vec![0, 0, 0], vec![0, 0, 1], vec![0, 0, 0]]);
    assert!(g.get_point(2, 1));
    g.set(2, 1, false);
    assert_eq!(cells(&g), vec![vec![0, 0, 0], vec![0, 0, 0], vec![0, 0, 0]]);
}

#[test]
fn checked_access_reports_out_of_range() {
    let mut g = grid(&[&[1, 0], &[0, 1]]);
    assert_eq!(g.checked_get(1, 1), Ok(true));
    assert_eq!(g.checked_get(0, 1), Ok(false));
    assert_eq!(g.checked_get(2, 0), Err(GridError::OutOfRange));
    assert_eq!(g.checked_get(0, 2), Err(GridError::OutOfRange));
    assert_eq!(g.checked_set(1, 0, true), Ok(()));
    assert_eq!(g.checked_set(5, 5, true), Err(GridError::OutOfRange));
    assert_eq!(cells(&g), vec![vec![1, 1], vec![0, 1]]);
}

#[test]
fn copy_to_merges_on_cells_only() {
    let src = grid(&[&[1, 0], &[0, 1]]);
    let mut dest = grid(&[&[0, 0, 0], &[0, 1, 1], &[1, 0, 0]]);
    src.copy_to(&mut dest, 1, 1);
    // The off cell of the source at (1, 0) lands on (2, 1), which stays on.
    assert_eq!(cells(&dest), vec![vec![0, 0, 0], vec![0, 1, 1], vec![1, 0, 1]]);
}

#[test]
fn copy_to_accumulates_overlapping_blits() {
    let src = grid(&[&[1, 1]]);
    let mut dest = Pixmap::new(3, 1, false);
    src.copy_to(&mut dest, 0, 0);
    src.copy_to(&mut dest, 1, 0);
    assert_eq!(cells(&dest), vec![vec![1, 1, 1]]);
}

#[test]
fn sub_view_extracts_a_rectangle() {
    let g = grid(&[&[1, 0, 1], &[0, 1, 0], &[1, 1, 0]]);
    let v = g.sub_view(1, 1, 2, 2);
    assert_eq!(cells(&v), vec![vec![1, 0], vec![1, 0]]);
}

#[test]
fn sub_view_reads_past_the_edge_as_off() {
    let g = grid(&[&[1, 1], &[1, 1]]);
    let v = g.sub_view(1, 1, 3, 2);
    assert_eq!(cells(&v), vec![vec![1, 0, 0], vec![0, 0, 0]]);
    let far = g.sub_view(usize::MAX, 0, 2, 1);
    assert_eq!(cells(&far), vec![vec![0, 0]]);
}

#[test]
fn empty_grid_has_no_cells() {
    let g = Pixmap::new(0, 4, true);
    assert_eq!(g.get_dimension(), (0, 4));
    assert_eq!(g.checked_get(0, 0), Err(GridError::OutOfRange));
}
