use game_of_life::universe::{Universe, UniverseError};

fn grid(text: &str) -> Universe {
    Universe::from_string(text.to_string()).unwrap()
}

fn text_of(u: &Universe) -> String {
    u.to_string()
}

#[test]
fn new_is_all_dead() {
    let u = Universe::new(3, 2);
    assert_eq!(u.size(), (3, 2));
    assert_eq!(text_of(&u), "000\n000\n");
}

#[test]
fn new_with_zero_dimensions() {
    let u = Universe::new(0, 0);
    assert_eq!(u.size(), (0, 0));
    assert_eq!(text_of(&u), "");
    assert!(u.points().is_empty());
    let v = Universe::new(4, 0);
    assert_eq!(text_of(&v), "");
    let w = Universe::new(0, 2);
    assert_eq!(text_of(&w), "\n\n");
}

#[test]
fn add_marks_cell_alive() {
    let mut u = Universe::new(3, 3);
    assert_eq!(u.add(1, 2), Ok(()));
    assert_eq!(text_of(&u), "000\n000\n010\n");
}

#[test]
fn add_last_valid_index_is_accepted() {
    let mut u = Universe::new(3, 2);
    assert_eq!(u.add(2, 1), Ok(()));
    assert_eq!(text_of(&u), "000\n001\n");
}

#[test]
fn add_at_dimension_is_out_of_bounds() {
    let mut u = Universe::new(3, 2);
    assert_eq!(u.add(3, 0), Err(UniverseError::OutOfBounds { x: 3, y: 0 }));
    assert_eq!(u.add(0, 2), Err(UniverseError::OutOfBounds { x: 0, y: 2 }));
    assert_eq!(u.add(7, 9), Err(UniverseError::OutOfBounds { x: 7, y: 9 }));
    assert_eq!(text_of(&u), "000\n000\n");
}

#[test]
fn add_on_empty_grid_fails() {
    let mut u = Universe::new(0, 0);
    assert_eq!(u.add(0, 0), Err(UniverseError::OutOfBounds { x: 0, y: 0 }));
}

#[test]
fn dead_cell_with_three_neighbors_is_born() {
    let mut u = grid("110\n100\n000");
    u.update();
    assert_eq!(text_of(&u), "110\n110\n000\n");
}

#[test]
fn dead_cell_with_two_neighbors_stays_dead() {
    let mut u = grid("100\n000\n001");
    u.update();
    assert_eq!(text_of(&u), "000\n000\n000\n");
}

#[test]
fn live_cell_with_two_or_three_neighbors_survives() {
    // The centre has two live neighbors.
    let mut u = grid("100\n010\n001");
    u.update();
    assert_eq!(text_of(&u), "000\n010\n000\n");
    // The centre has three live neighbors.
    let mut v = grid("101\n010\n100");
    v.update();
    assert_eq!(text_of(&v), "010\n110\n000\n");
}

#[test]
fn live_cell_with_few_neighbors_dies() {
    let mut u = grid("000\n010\n000");
    u.update();
    assert_eq!(text_of(&u), "000\n000\n000\n");
    let mut v = grid("000\n011\n000");
    v.update();
    assert_eq!(text_of(&v), "000\n000\n000\n");
}

#[test]
fn live_cell_with_four_neighbors_dies() {
    let mut u = grid("101\n010\n101");
    u.update();
    assert_eq!(text_of(&u), "010\n101\n010\n");
}

#[test]
fn corner_counts_only_cells_inside() {
    // With wrapping, (0,0) would see the three live cells of the far corner.
    let mut u = grid("0000\n0000\n0011\n0011");
    u.update();
    assert_eq!(text_of(&u), "0000\n0000\n0011\n0011\n");
    // A full 2 by 2 grid: every corner has exactly three neighbors and lives.
    let mut v = grid("11\n11");
    v.update();
    assert_eq!(text_of(&v), "11\n11\n");
}

#[test]
fn edge_cell_is_born_from_cells_inside() {
    let mut u = grid("010\n110\n000");
    u.update();
    assert_eq!(text_of(&u), "110\n110\n000\n");
}

#[test]
fn all_dead_grid_stays_dead() {
    for (w, h) in [(0u32, 0u32), (1, 1), (5, 3), (8, 8)] {
        let mut u = Universe::new(w, h);
        let before = text_of(&u);
        u.update();
        assert_eq!(u.size(), (w, h));
        assert_eq!(text_of(&u), before);
    }
}

#[test]
fn blinker_has_period_two() {
    let mut u = Universe::new(5, 5);
    u.add(1, 2).unwrap();
    u.add(2, 2).unwrap();
    u.add(3, 2).unwrap();
    let start = text_of(&u);
    assert_eq!(start, "00000\n00000\n01110\n00000\n00000\n");
    u.update();
    assert_eq!(text_of(&u), "00000\n00100\n00100\n00100\n00000\n");
    u.update();
    assert_eq!(text_of(&u), start);
    u.update();
    u.update();
    assert_eq!(text_of(&u), start);
}

#[test]
fn from_string_reads_rows() {
    let u = grid("101\n010");
    assert_eq!(u.size(), (3, 2));
    assert_eq!(text_of(&u), "101\n010\n");
}

#[test]
fn from_string_treats_other_bytes_as_dead() {
    let u = grid("1x2\n 01");
    assert_eq!(text_of(&u), "100\n001\n");
}

#[test]
fn from_string_measures_lines_in_bytes() {
    // 'é' takes two bytes, so this line is three cells wide.
    let u = grid("\u{e9}1");
    assert_eq!(u.size(), (3, 1));
    assert_eq!(text_of(&u), "001\n");
}

#[test]
fn from_string_rejects_unequal_rows() {
    let r = Universe::from_string("11\n1".to_string());
    assert_eq!(r.err(), Some(UniverseError::MalformedText));
}

#[test]
fn from_string_trailing_newline_adds_an_empty_row() {
    // The final empty line is shorter than the others.
    let r = Universe::from_string("10\n01\n".to_string());
    assert_eq!(r.err(), Some(UniverseError::MalformedText));
    // Where every line is empty it is accepted as a row of its own.
    let u = grid("\n\n");
    assert_eq!(u.size(), (0, 3));
}

#[test]
fn from_string_of_empty_text() {
    let u = grid("");
    assert_eq!(u.size(), (0, 1));
    assert_eq!(text_of(&u), "\n");
}

#[test]
fn to_string_writes_rows() {
    let mut u = Universe::new(2, 3);
    u.add(0, 0).unwrap();
    u.add(1, 2).unwrap();
    assert_eq!(text_of(&u), "10\n00\n01\n");
}

#[test]
fn round_trip_without_trailing_newline() {
    let mut u = Universe::new(4, 3);
    u.add(0, 0).unwrap();
    u.add(3, 1).unwrap();
    u.add(2, 2).unwrap();
    let text = text_of(&u);
    let trimmed = text.strip_suffix('\n').unwrap().to_string();
    let v = Universe::from_string(trimmed).unwrap();
    assert_eq!(v.size(), u.size());
    assert_eq!(text_of(&v), text);
}

#[test]
fn round_trip_with_trailing_newline_fails() {
    let u = Universe::new(2, 2);
    let r = Universe::from_string(text_of(&u));
    assert_eq!(r.err(), Some(UniverseError::MalformedText));
}

#[test]
fn points_flip_the_y_axis() {
    let mut u = Universe::new(3, 3);
    u.add(0, 0).unwrap();
    u.add(1, 1).unwrap();
    let mut p = u.points();
    p.sort();
    assert_eq!(p, vec![(0, 3), (1, 2)]);
}

#[test]
fn points_are_in_row_order() {
    let u = grid("011\n100");
    assert_eq!(u.points(), vec![(1, 2), (2, 2), (0, 1)]);
}

#[test]
fn points_follow_each_step() {
    let mut u = grid("000\n111\n000");
    let mut before = u.points();
    before.sort();
    assert_eq!(before, vec![(0, 2), (1, 2), (2, 2)]);
    u.update();
    let mut after = u.points();
    after.sort();
    assert_eq!(after, vec![(1, 1), (1, 2), (1, 3)]);
}

#[test]
fn points_of_dead_grid_are_empty() {
    let u = Universe::new(4, 4);
    assert!(u.points().is_empty());
}
