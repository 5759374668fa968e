use recimage::{Canvas, Data, GridError, Pixmap};

fn grid(rows: &[&[u8]]) -> Pixmap {
    let height = rows.len();
    let width = if height == 0 { 0 } else { rows[0].len() };
    let mut g = Pixmap::new(width, height, false);
    for (y, row) in rows.iter().enumerate() {
        for (x, v) in row.iter().enumerate() {
            g.set(x, y, *v == 1);
        }
    }
    g
}

#[test]
fn all_on_stencil_fills_quadrants() {
    let source = grid(&[&[1, 0], &[0, 1]]);
    let stencil = Pixmap::new(3, 3, true);
    let canvas = Canvas::new(&source, &stencil).unwrap();
    assert_eq!(canvas.get_dimension(), (6, 6));
    for y in 0..6 {
        for x in 0..6 {
            let expected = (x < 3 && y < 3) || (x >= 3 && y >= 3);
            assert_eq!(canvas.get_point(x, y), expected, "at ({}, {})", x, y);
        }
    }
}

#[test]
fn composite_point_follows_source_and_stencil() {
    let source = grid(&[&[1, 1, 0], &[0, 1, 1]]);
    let stencil = grid(&[&[0, 1], &[1, 1], &[1, 0]]);
    let canvas = Canvas::new(&source, &stencil).unwrap();
    let (w, h) = canvas.get_dimension();
    assert_eq!((w, h), (6, 6));
    for y in 0..h {
        for x in 0..w {
            let expected = source.get(x / 2, y / 3) && stencil.get(x % 2, y % 3);
            assert_eq!(canvas.get_point(x, y), expected);
        }
    }
    assert!(canvas.get_point(1, 0));
    assert!(!canvas.get_point(0, 0));
    assert!(!canvas.get_point(5, 0));
}

#[test]
fn inputs_are_left_unchanged() {
    let source = grid(&[&[1, 0]]);
    let stencil = grid(&[&[1, 0]]);
    {
        let canvas = Canvas::new(&source, &stencil).unwrap();
        assert_eq!(canvas.get_dimension(), (4, 1));
    }
    assert!(source.get(0, 0) && !source.get(1, 0));
    assert!(stencil.get(0, 0) && !stencil.get(1, 0));
}

#[test]
fn empty_stencil_is_refused() {
    let source = grid(&[&[1]]);
    let stencil = Pixmap::new(0, 2, true);
    assert_eq!(Canvas::new(&source, &stencil).err(), Some(GridError::ZeroDimension));
    let flat = Pixmap::new(2, 0, true);
    assert_eq!(Canvas::new(&source, &flat).err(), Some(GridError::ZeroDimension));
}

#[test]
fn empty_source_is_refused() {
    let stencil = Pixmap::new(2, 2, true);
    let flat = Pixmap::new(3, 0, false);
    assert_eq!(Canvas::new(&flat, &stencil).err(), Some(GridError::ZeroDimension));
    let thin = Pixmap::new(0, 3, false);
    assert_eq!(Canvas::new(&thin, &stencil).err(), Some(GridError::ZeroDimension));
}

#[test]
fn checked_point_reports_out_of_range() {
    let source = grid(&[&[1, 0], &[0, 1]]);
    let stencil = Pixmap::new(3, 3, true);
    let canvas = Canvas::new(&source, &stencil).unwrap();
    assert_eq!(canvas.checked_get_point(4, 5), Ok(true));
    assert_eq!(canvas.checked_get_point(4, 1), Ok(false));
    assert_eq!(canvas.checked_get_point(6, 0), Err(GridError::OutOfRange));
    assert_eq!(canvas.checked_get_point(0, 6), Err(GridError::OutOfRange));
}

#[test]
fn single_on_stencil_shows_the_source() {
    let source = grid(&[&[1, 0, 1], &[0, 1, 1]]);
    let stencil = Pixmap::new(1, 1, true);
    let canvas = Canvas::new(&source, &stencil).unwrap();
    assert_eq!(canvas.get_dimension(), (3, 2));
    for y in 0..2 {
        for x in 0..3 {
            assert_eq!(canvas.get_point(x, y), source.get(x, y));
        }
    }
}
