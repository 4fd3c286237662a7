use life::{generation_line, insert_glider, viewport, SquareGrid};

#[test]
fn renders_a_glider() {
    let mut grid = SquareGrid::new();
    insert_glider(&mut grid, (2, 5));
    assert_eq!(
        grid.to_string((6, 9), '0', ' '),
        "      \n      \n      \n      \n      \n  0 0 \n   00 \n   0  \n      \n"
    );
}

#[test]
fn renders_with_the_glyphs_given() {
    let mut grid = SquareGrid::new();
    grid.set_alive((0, 0));
    grid.set_alive((2, 1));
    assert_eq!(grid.to_string((3, 2), '#', '.'), "#..\n..#\n");
}

#[test]
fn renders_an_empty_grid() {
    let grid = SquareGrid::new();
    assert_eq!(grid.to_string((4, 2), '0', ' '), "    \n    \n");
}

#[test]
fn renders_rows_before_columns() {
    let mut grid = SquareGrid::new();
    grid.set_alive((1, 0));
    assert_eq!(grid.to_string((2, 3), 'x', '-'), "-x\n--\n--\n");
}

#[test]
fn rendering_has_height_lines_of_width_glyphs() {
    let mut grid = SquareGrid::new();
    insert_glider(&mut grid, (2, 5));
    grid.set_alive((-1, -1));
    grid.set_alive((1_000_000, 3));
    grid.set_alive((3, 1_000_000));
    grid.set_alive((i128::MAX, i128::MAX));
    grid.set_alive((i128::MIN, 0));
    for (width, height) in [(1, 1), (7, 3), (10, 10), (40, 12)] {
        let text = grid.to_string((width, height), '0', ' ');
        assert_eq!(text.chars().count() as i128, height * (width + 1));
        assert!(text.ends_with('\n'));
        let lines: Vec<&str> = text.lines().collect();
        assert_eq!(lines.len() as i128, height);
        for line in lines {
            assert_eq!(line.chars().count() as i128, width);
            assert!(line.chars().all(|c| c == '0' || c == ' '));
        }
    }
}

#[test]
fn rendering_leaves_out_cells_outside_the_window() {
    let mut grid = SquareGrid::new();
    grid.set_alive((-1, 0));
    grid.set_alive((0, -1));
    grid.set_alive((2, 0));
    grid.set_alive((0, 2));
    assert_eq!(grid.to_string((2, 2), '0', ' '), "  \n  \n");
}

#[test]
fn rendering_without_width_gives_empty_lines() {
    let mut grid = SquareGrid::new();
    grid.set_alive((0, 0));
    assert_eq!(grid.to_string((0, 3), '0', ' '), "\n\n\n");
    assert_eq!(grid.to_string((-5, 2), '0', ' '), "\n\n");
}

#[test]
fn rendering_without_height_gives_nothing() {
    let mut grid = SquareGrid::new();
    grid.set_alive((0, 0));
    assert_eq!(grid.to_string((3, 0), '0', ' '), "");
    assert_eq!(grid.to_string((3, -1), '0', ' '), "");
    assert_eq!(grid.to_string((-3, -1), '0', ' '), "");
}

#[test]
fn rendering_takes_glyphs_beyond_ascii() {
    let mut grid = SquareGrid::new();
    grid.set_alive((1, 0));
    assert_eq!(grid.to_string((2, 1), '\u{2588}', '\u{b7}'), "\u{b7}\u{2588}\n");
}

#[test]
fn rendering_follows_the_generations() {
    let mut grid = SquareGrid::new();
    grid.seed(&[(0, 1), (1, 1), (2, 1)], (0, 0));
    assert_eq!(grid.to_string((3, 3), '0', ' '), "   \n000\n   \n");
    grid.tick();
    assert_eq!(grid.to_string((3, 3), '0', ' '), " 0 \n 0 \n 0 \n");
}

#[test]
fn generation_line_tells_the_number() {
    assert_eq!(generation_line(0), "generation: 0\n");
    assert_eq!(generation_line(7), "generation: 7\n");
    assert_eq!(generation_line(10), "generation: 10\n");
    assert_eq!(generation_line(1234567890), "generation: 1234567890\n");
    assert_eq!(generation_line(100), "generation: 100\n");
}

#[test]
fn generation_line_of_the_largest_number() {
    assert_eq!(generation_line(u64::MAX), "generation: 18446744073709551615\n");
    assert_eq!(generation_line(u64::MAX), format!("generation: {}\n", u64::MAX));
}

#[test]
fn generation_line_agrees_with_the_usual_decimal_form() {
    let mut n: u64 = 1;
    for _ in 0..19 {
        assert_eq!(generation_line(n), format!("generation: {}\n", n));
        assert_eq!(generation_line(n - 1), format!("generation: {}\n", n - 1));
        n *= 10;
    }
}

#[test]
fn viewport_leaves_a_column_and_two_rows_free() {
    assert_eq!(viewport(80, 24), (79, 22));
    assert_eq!(viewport(1, 2), (0, 0));
    assert_eq!(viewport(0, 0), (-1, -2));
    assert_eq!(viewport(u16::MAX, u16::MAX), (65534, 65533));
}
