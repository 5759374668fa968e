use recimage::{Data, Pixmap};

fn lines(text: &[&str]) -> Vec<Vec<char>> {
    text.iter().map(|l| l.chars().collect()).collect()
}

fn cells(g: &Pixmap) -> Vec<Vec<u8>> {
    (0..g.height())
        .map(|y| (0..g.width()).map(|x| g.get(x, y) as u8).collect())
        .collect()
}

#[test]
fn diagonal_pattern_parses() {
    let g = Pixmap::from_pattern(&lines(&["X ", " X"])).unwrap();
    assert_eq!(g.get_dimension(), (2, 2));
    assert_eq!(cells(&g), vec![vec![1, 0], vec![0, 1]]);
}

#[test]
fn short_rows_are_padded_off() {
    let g = Pixmap::from_pattern(&lines(&["#", "###", "##"])).unwrap();
    assert_eq!(g.get_dimension(), (3, 3));
    assert_eq!(cells(&g), vec![vec![1, 0, 0], vec![1, 1, 1], vec![1, 1, 0]]);
}

#[test]
fn any_non_blank_glyph_is_on() {
    let g = Pixmap::from_pattern(&lines(&["a.", "\t "])).unwrap();
    assert_eq!(cells(&g), vec![vec![1, 1], vec![1, 0]]);
}

#[test]
fn trailing_blank_lines_are_kept() {
    let g = Pixmap::from_pattern(&lines(&["XX", "", "  "])).unwrap();
    assert_eq!(g.get_dimension(), (2, 3));
    assert_eq!(cells(&g), vec![vec![1, 1], vec![0, 0], vec![0, 0]]);
}

#[test]
fn empty_pattern_is_an_empty_grid() {
    let g = Pixmap::from_pattern(&Vec::new()).unwrap();
    assert_eq!(g.get_dimension(), (0, 0));
}

#[test]
fn pattern_round_trip_pads_short_rows() {
    let text = lines(&["X X", " X", "", "XX"]);
    let g = Pixmap::from_pattern(&text).unwrap();
    let back = g.to_pattern('X');
    assert_eq!(back, lines(&["X X", " X ", "   ", "XX "]));
}

#[test]
fn grid_round_trip() {
    let text = lines(&["X  X", " XX ", "X  X"]);
    let g = Pixmap::from_pattern(&text).unwrap();
    let again = Pixmap::from_pattern(&g.to_pattern('*')).unwrap();
    assert_eq!(cells(&again), cells(&g));
    assert_eq!(g.to_pattern('X'), text);
}
