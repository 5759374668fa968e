use recimage::fractal::{draw, expanded_point};
use recimage::{Data, GridError, Pixmap};

fn grid(rows: &[&[u8]]) -> Pixmap {
    let height = rows.len();
    let width = if height == 0 { 0 } else { rows[0].len() };
    let mut g = Pixmap::new(width, height, false);
    for (y, row) in rows.iter().enumerate() {
        for (x, v) in row.iter().enumerate() {
            g.set(x, y, *v == 1);
        }
    }
    g
}

fn cells(g: &Pixmap) -> Vec<Vec<u8>> {
    (0..g.height())
        .map(|y| (0..g.width()).map(|x| g.get(x, y) as u8).collect())
        .collect()
}

fn brushes() -> Vec<Pixmap> {
    vec![
        grid(&[&[1, 0], &[0, 1]]),
        grid(&[&[1, 1, 1], &[1, 0, 1], &[1, 1, 1]]),
        grid(&[&[0, 1, 0], &[1, 1, 1]]),
        grid(&[&[1, 0, 1]]),
        grid(&[&[1], &[1]]),
        grid(&[&[0, 0], &[0, 0]]),
    ]
}

#[test]
fn depth_zero_is_identity() {
    for b in brushes() {
        let r = draw(&b, 0).unwrap();
        assert_eq!(r.get_dimension(), b.get_dimension());
        assert_eq!(cells(&r), cells(&b));
    }
}

#[test]
fn depth_one_is_the_brush() {
    for b in brushes() {
        let r = draw(&b, 1).unwrap();
        assert_eq!(cells(&r), cells(&b));
    }
}

#[test]
fn dimensions_are_powers_of_the_brush() {
    let b = grid(&[&[1, 0], &[1, 1], &[0, 1]]);
    for depth in 1..5u32 {
        let r = draw(&b, depth as usize).unwrap();
        assert_eq!(r.get_dimension(), (2usize.pow(depth), 3usize.pow(depth)));
    }
}

#[test]
fn blocks_repeat_the_previous_depth() {
    for b in brushes() {
        let (bw, bh) = b.get_dimension();
        for depth in 2..4usize {
            let full = draw(&b, depth).unwrap();
            let prev = draw(&b, depth - 1).unwrap();
            let (sx, sy) = prev.get_dimension();
            for by in 0..bh {
                for bx in 0..bw {
                    let block = full.sub_view(bx * sx, by * sy, sx, sy);
                    if b.get(bx, by) {
                        assert_eq!(cells(&block), cells(&prev));
                    } else {
                        assert_eq!(cells(&block), cells(&Pixmap::new(sx, sy, false)));
                    }
                }
            }
        }
    }
}

#[test]
fn cached_build_matches_point_descent() {
    for b in brushes() {
        for depth in 0..5usize {
            let r = draw(&b, depth).unwrap();
            let (w, h) = r.get_dimension();
            for y in 0..h {
                for x in 0..w {
                    assert_eq!(r.get(x, y), expanded_point(&b, depth, x, y));
                }
            }
        }
    }
}

#[test]
fn diagonal_brush_at_depth_two() {
    let b = grid(&[&[1, 0], &[0, 1]]);
    let r = draw(&b, 2).unwrap();
    assert_eq!(r.get_dimension(), (4, 4));
    assert_eq!(
        cells(&r),
        vec![
            vec![1, 0, 0, 0],
            vec![0, 1, 0, 0],
            vec![0, 0, 1, 0],
            vec![0, 0, 0, 1],
        ]
    );
}

#[test]
fn all_off_brush_stays_off() {
    let b = Pixmap::new(3, 3, false);
    for depth in 0..5u32 {
        let r = draw(&b, depth as usize).unwrap();
        let side = if depth == 0 { 3 } else { 3usize.pow(depth) };
        assert_eq!(r.get_dimension(), (side, side));
        assert!(cells(&r).iter().all(|row| row.iter().all(|c| *c == 0)));
    }
}

#[test]
fn single_on_cell_at_depth_five() {
    let b = grid(&[&[1]]);
    let r = draw(&b, 5).unwrap();
    assert_eq!(r.get_dimension(), (1, 1));
    assert!(r.get(0, 0));
}

#[test]
fn sierpinski_carpet_centre_is_off() {
    let b = grid(&[&[1, 1, 1], &[1, 0, 1], &[1, 1, 1]]);
    let r = draw(&b, 3).unwrap();
    assert_eq!(r.get_dimension(), (27, 27));
    assert!(!r.get(13, 13));
    assert!(!r.get(4, 4));
    assert!(r.get(0, 0));
    assert!(r.get(26, 26));
    assert!(!r.get(1 + 9, 1 + 9));
    assert!(r.get(3, 0));
}

#[test]
fn zero_dimension_brush_is_refused() {
    assert_eq!(draw(&Pixmap::new(0, 3, true), 2).err(), Some(GridError::ZeroDimension));
    assert_eq!(draw(&Pixmap::new(3, 0, true), 0).err(), Some(GridError::ZeroDimension));
}

#[test]
fn overflowing_depth_is_refused() {
    let b = grid(&[&[1, 0], &[0, 1]]);
    assert_eq!(draw(&b, 32).err(), Some(GridError::TooLarge));
    assert_eq!(draw(&b, 200).err(), Some(GridError::TooLarge));
    let tall = grid(&[&[1], &[1]]);
    assert_eq!(draw(&tall, 64).err(), Some(GridError::TooLarge));
}
