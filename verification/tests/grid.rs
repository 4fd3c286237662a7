use life::{insert_glider, SquareGrid};

fn sorted(mut cells: Vec<(i128, i128)>) -> Vec<(i128, i128)> {
    cells.sort();
    cells
}

fn grid_of(cells: &[(i128, i128)]) -> SquareGrid {
    let mut grid = SquareGrid::new();
    grid.seed(cells, (0, 0));
    grid
}

/// The eight neighbours of the origin, in the order of `SquareGrid::neighbors`.
const AROUND: [(i128, i128); 8] =
    [(-1, -1), (-1, 0), (-1, 1), (0, -1), (0, 1), (1, -1), (1, 0), (1, 1)];

#[test]
fn new_grid_is_empty() {
    let grid = SquareGrid::new();
    assert_eq!(grid.population(), 0);
    assert_eq!(grid.alive_cells(), vec![]);
    assert!(!grid.is_alive((0, 0)));
    assert!(!grid.is_alive((i128::MAX, i128::MIN)));
}

#[test]
fn set_alive_makes_a_cell_alive() {
    let mut grid = SquareGrid::new();
    grid.set_alive((3, -4));
    assert!(grid.is_alive((3, -4)));
    assert!(!grid.is_alive((-4, 3)));
    assert!(!grid.is_alive((3, -3)));
    assert_eq!(grid.population(), 1);
}

#[test]
fn set_alive_twice_is_set_alive_once() {
    let mut grid = SquareGrid::new();
    grid.set_alive((1, 1));
    grid.set_alive((2, 2));
    grid.set_alive((1, 1));
    assert_eq!(grid.population(), 2);
    assert_eq!(grid.alive_cells(), vec![(1, 1), (2, 2)]);
}

#[test]
fn set_dead_removes_a_cell() {
    let mut grid = SquareGrid::new();
    grid.set_alive((1, 1));
    grid.set_alive((2, 2));
    grid.set_dead((1, 1));
    assert!(!grid.is_alive((1, 1)));
    assert!(grid.is_alive((2, 2)));
    assert_eq!(grid.population(), 1);
}

#[test]
fn set_dead_on_a_dead_cell_changes_nothing() {
    let mut grid = SquareGrid::new();
    grid.set_alive((1, 1));
    grid.set_dead((5, 5));
    grid.set_dead((5, 5));
    assert_eq!(grid.alive_cells(), vec![(1, 1)]);
}

#[test]
fn set_dead_keeps_the_order_of_the_other_cells() {
    let mut grid = SquareGrid::new();
    grid.set_alive((0, 0));
    grid.set_alive((1, 0));
    grid.set_alive((2, 0));
    grid.set_alive((3, 0));
    grid.set_dead((0, 0));
    assert_eq!(grid.alive_cells(), vec![(1, 0), (2, 0), (3, 0)]);
    grid.set_dead((2, 0));
    assert_eq!(grid.alive_cells(), vec![(1, 0), (3, 0)]);
    grid.set_dead((3, 0));
    assert_eq!(grid.alive_cells(), vec![(1, 0)]);
}

#[test]
fn cell_that_comes_alive_again_goes_to_the_end() {
    let mut grid = SquareGrid::new();
    grid.set_alive((0, 0));
    grid.set_alive((1, 0));
    grid.set_dead((0, 0));
    grid.set_alive((0, 0));
    assert_eq!(grid.alive_cells(), vec![(1, 0), (0, 0)]);
}

#[test]
fn alive_cells_come_in_the_order_of_insertion() {
    let mut grid = SquareGrid::new();
    grid.set_alive((9, 9));
    grid.set_alive((-7, 2));
    grid.set_alive((0, 0));
    assert_eq!(grid.alive_cells(), vec![(9, 9), (-7, 2), (0, 0)]);
}

#[test]
fn works_far_from_the_origin() {
    let mut grid = SquareGrid::new();
    let far = (i128::MAX, i128::MIN);
    grid.set_alive(far);
    assert!(grid.is_alive(far));
    grid.set_dead(far);
    assert!(!grid.is_alive(far));
}

#[test]
fn seed_places_each_offset_at_the_origin() {
    let mut grid = SquareGrid::new();
    grid.seed(&[(0, 0), (1, 0), (-2, 3)], (10, 20));
    assert_eq!(grid.alive_cells(), vec![(10, 20), (11, 20), (8, 23)]);
}

#[test]
fn seed_keeps_what_is_alive() {
    let mut grid = SquareGrid::new();
    grid.set_alive((100, 100));
    grid.seed(&[(0, 0), (0, 0), (1, 1)], (5, 5));
    assert_eq!(grid.alive_cells(), vec![(100, 100), (5, 5), (6, 6)]);
}

#[test]
fn seed_with_an_empty_pattern_changes_nothing() {
    let mut grid = SquareGrid::new();
    grid.set_alive((1, 2));
    grid.seed(&[], (5, 5));
    assert_eq!(grid.alive_cells(), vec![(1, 2)]);
}

#[test]
fn seed_leaves_out_what_falls_off_the_lattice() {
    let mut grid = SquareGrid::new();
    grid.seed(&[(0, 0), (1, 0), (0, 1), (-1, -1)], (i128::MAX, i128::MAX));
    assert_eq!(grid.alive_cells(), vec![(i128::MAX, i128::MAX), (i128::MAX - 1, i128::MAX - 1)]);
}

#[test]
fn insert_glider_places_five_cells() {
    let mut grid = SquareGrid::new();
    insert_glider(&mut grid, (2, 5));
    assert_eq!(grid.alive_cells(), vec![(2, 5), (4, 5), (3, 6), (4, 6), (3, 7)]);
}

#[test]
fn insert_glider_at_the_edge_places_what_fits() {
    let mut grid = SquareGrid::new();
    insert_glider(&mut grid, (i128::MAX - 1, 0));
    assert_eq!(grid.alive_cells(), vec![(i128::MAX - 1, 0), (i128::MAX, 1), (i128::MAX, 2)]);
}

#[test]
fn neighbors_are_the_eight_cells_around() {
    assert_eq!(
        SquareGrid::new().neighbors((10, 20)),
        vec![(9, 19), (9, 20), (9, 21), (10, 19), (10, 21), (11, 19), (11, 20), (11, 21)]
    );
    assert_eq!(SquareGrid::new().neighbors((0, 0)), AROUND.to_vec());
}

#[test]
fn neighbors_at_a_corner_of_the_lattice_are_three() {
    let (max, min) = (i128::MAX, i128::MIN);
    assert_eq!(
        SquareGrid::new().neighbors((max, max)),
        vec![(max - 1, max - 1), (max - 1, max), (max, max - 1)]
    );
    assert_eq!(
        SquareGrid::new().neighbors((min, min)),
        vec![(min, min + 1), (min + 1, min), (min + 1, min + 1)]
    );
}

#[test]
fn neighbors_at_an_edge_of_the_lattice_are_five() {
    let max = i128::MAX;
    assert_eq!(
        SquareGrid::new().neighbors((max, 0)),
        vec![(max - 1, -1), (max - 1, 0), (max - 1, 1), (max, -1), (max, 1)]
    );
}

#[test]
fn live_neighbors_counts_the_alive_cells_around() {
    for k in 0..=8 {
        let grid = grid_of(&AROUND[..k]);
        assert_eq!(grid.live_neighbors((0, 0)), k as i128);
    }
}

#[test]
fn live_neighbors_leaves_out_the_cell_itself() {
    let grid = grid_of(&[(0, 0)]);
    assert_eq!(grid.live_neighbors((0, 0)), 0);
    assert_eq!(grid.live_neighbors((1, 1)), 1);
    assert_eq!(grid.live_neighbors((2, 0)), 0);
}

#[test]
fn live_neighbors_at_the_edge_of_the_lattice() {
    let max = i128::MAX;
    let mut grid = SquareGrid::new();
    grid.set_alive((max, max - 1));
    grid.set_alive((max - 1, max));
    grid.set_alive((i128::MIN, i128::MIN));
    assert_eq!(grid.live_neighbors((max, max)), 2);
    assert_eq!(grid.live_neighbors((i128::MIN, i128::MIN)), 0);
}

#[test]
fn cells_to_consider_of_an_empty_grid_are_none() {
    assert_eq!(SquareGrid::new().get_cells_to_consider(), vec![]);
}

#[test]
fn cells_to_consider_of_one_cell_are_nine() {
    let grid = grid_of(&[(5, 5)]);
    assert_eq!(
        grid.get_cells_to_consider(),
        vec![(5, 5), (4, 4), (4, 5), (4, 6), (5, 4), (5, 6), (6, 4), (6, 5), (6, 6)]
    );
}

#[test]
fn cells_to_consider_come_in_the_order_of_the_alive_cells() {
    let grid = grid_of(&[(0, 0), (1, 0)]);
    assert_eq!(
        grid.get_cells_to_consider(),
        vec![
            (0, 0),
            (-1, -1),
            (-1, 0),
            (-1, 1),
            (0, -1),
            (0, 1),
            (1, -1),
            (1, 0),
            (1, 1),
            (2, -1),
            (2, 0),
            (2, 1)
        ]
    );
}

#[test]
fn cells_to_consider_at_a_corner_of_the_lattice() {
    let max = i128::MAX;
    let grid = grid_of(&[(max, max)]);
    assert_eq!(
        grid.get_cells_to_consider(),
        vec![(max, max), (max - 1, max - 1), (max - 1, max), (max, max - 1)]
    );
}

#[test]
fn cells_to_consider_lists_each_cell_once() {
    let grid = grid_of(&[(0, 0), (1, 0)]);
    let cells = grid.get_cells_to_consider();
    assert_eq!(cells.len(), 12);
    let mut expected = vec![];
    for x in -1..=2 {
        for y in -1..=1 {
            expected.push((x, y));
        }
    }
    assert_eq!(sorted(cells), sorted(expected));
}

#[test]
fn cells_to_consider_leave_out_far_cells() {
    let grid = grid_of(&[(0, 0), (10, 10)]);
    let cells = grid.get_cells_to_consider();
    assert_eq!(cells.len(), 18);
    assert!(!cells.contains(&(2, 0)));
    assert!(!cells.contains(&(5, 5)));
    assert!(cells.contains(&(1, 1)));
    assert!(cells.contains(&(9, 11)));
}

#[test]
fn glider_moves_one_cell_along_both_axes_in_four_ticks() {
    let mut grid = SquareGrid::new();
    insert_glider(&mut grid, (2, 5));
    let start = sorted(grid.alive_cells());
    for _ in 0..4 {
        grid.tick();
    }
    let moved: Vec<(i128, i128)> = start.iter().map(|&(x, y)| (x + 1, y + 1)).collect();
    assert_eq!(sorted(grid.alive_cells()), moved);
    assert_eq!(sorted(grid.alive_cells()), vec![(3, 6), (4, 7), (4, 8), (5, 6), (5, 7)]);
}

#[test]
fn glider_passes_through_its_phases() {
    let mut grid = SquareGrid::new();
    insert_glider(&mut grid, (2, 5));
    grid.tick();
    assert_eq!(sorted(grid.alive_cells()), vec![(2, 6), (3, 7), (4, 5), (4, 6), (4, 7)]);
    grid.tick();
    assert_eq!(sorted(grid.alive_cells()), vec![(3, 5), (3, 7), (4, 6), (4, 7), (5, 6)]);
    grid.tick();
    assert_eq!(sorted(grid.alive_cells()), vec![(3, 7), (4, 5), (4, 7), (5, 6), (5, 7)]);
}

#[test]
fn tick_keeps_the_order_of_the_living_and_puts_the_born_behind() {
    let mut grid = SquareGrid::new();
    insert_glider(&mut grid, (2, 5));
    grid.tick();
    assert_eq!(grid.alive_cells(), vec![(4, 5), (4, 6), (3, 7), (2, 6), (4, 7)]);
    grid.tick();
    assert_eq!(grid.alive_cells(), vec![(4, 6), (3, 7), (4, 7), (3, 5), (5, 6)]);
    grid.tick();
    assert_eq!(grid.alive_cells(), vec![(3, 7), (4, 7), (5, 6), (4, 5), (5, 7)]);
    grid.tick();
    assert_eq!(grid.alive_cells(), vec![(4, 7), (5, 6), (5, 7), (3, 6), (4, 8)]);
}

#[test]
fn tick_orders_the_born_as_the_cells_to_consider() {
    let mut grid = grid_of(&[(0, 0), (1, 0), (2, 0)]);
    grid.tick();
    assert_eq!(grid.alive_cells(), vec![(1, 0), (1, -1), (1, 1)]);
    grid.tick();
    assert_eq!(grid.alive_cells(), vec![(1, 0), (0, 0), (2, 0)]);
}

#[test]
fn glider_keeps_moving_for_many_ticks() {
    let mut grid = SquareGrid::new();
    insert_glider(&mut grid, (-3, -3));
    for _ in 0..40 {
        grid.tick();
    }
    assert_eq!(sorted(grid.alive_cells()), vec![(7, 7), (8, 8), (8, 9), (9, 7), (9, 8)]);
}

#[test]
fn block_stays_as_it_is() {
    let block = [(0, 0), (1, 0), (0, 1), (1, 1)];
    let mut grid = SquareGrid::new();
    grid.seed(&block, (7, -3));
    let start = sorted(grid.alive_cells());
    assert_eq!(start, vec![(7, -3), (7, -2), (8, -3), (8, -2)]);
    for _ in 0..25 {
        grid.tick();
        assert_eq!(sorted(grid.alive_cells()), start);
    }
}

#[test]
fn block_at_the_corner_of_the_lattice_stays_as_it_is() {
    let block = [(0, 0), (1, 0), (0, 1), (1, 1)];
    let mut grid = SquareGrid::new();
    grid.seed(&block, (i128::MAX - 1, i128::MAX - 1));
    let start = sorted(grid.alive_cells());
    assert_eq!(start.len(), 4);
    for _ in 0..3 {
        grid.tick();
        assert_eq!(sorted(grid.alive_cells()), start);
    }
}

#[test]
fn lone_cell_dies() {
    let mut grid = grid_of(&[(4, 4)]);
    grid.tick();
    assert_eq!(grid.population(), 0);
    assert_eq!(grid.alive_cells(), vec![]);
    assert!(!grid.is_alive((4, 4)));
}

#[test]
fn pair_of_cells_dies() {
    let mut grid = grid_of(&[(4, 4), (5, 4)]);
    grid.tick();
    assert_eq!(grid.population(), 0);
}

#[test]
fn alive_cell_lives_on_with_two_or_three_neighbors_only() {
    for k in 0..=8 {
        let mut grid = grid_of(&AROUND[..k]);
        grid.set_alive((0, 0));
        grid.tick();
        assert_eq!(grid.is_alive((0, 0)), k == 2 || k == 3, "with {} neighbours", k);
    }
}

#[test]
fn crowded_cell_dies_while_others_live_on() {
    // A plus sign: the centre has four neighbours, each arm has one on the
    // axis and two on the diagonals.
    let mut grid = grid_of(&[(0, 0), (1, 0), (-1, 0), (0, 1), (0, -1)]);
    assert_eq!(grid.live_neighbors((0, 0)), 4);
    assert_eq!(grid.live_neighbors((1, 0)), 3);
    grid.tick();
    assert!(!grid.is_alive((0, 0)));
    assert!(grid.is_alive((1, 0)));
    assert!(grid.is_alive((-1, 0)));
    assert!(grid.is_alive((0, 1)));
    assert!(grid.is_alive((0, -1)));
}

#[test]
fn dead_cell_comes_alive_with_three_neighbors_only() {
    for k in 0..=8 {
        let mut grid = grid_of(&AROUND[..k]);
        grid.tick();
        assert_eq!(grid.is_alive((0, 0)), k == 3, "with {} neighbours", k);
    }
}

#[test]
fn blinker_turns() {
    let mut grid = grid_of(&[(0, 0), (1, 0), (2, 0)]);
    grid.tick();
    assert_eq!(sorted(grid.alive_cells()), vec![(1, -1), (1, 0), (1, 1)]);
    grid.tick();
    assert_eq!(sorted(grid.alive_cells()), vec![(0, 0), (1, 0), (2, 0)]);
}

#[test]
fn tick_judges_every_cell_by_the_generation_before() {
    // An L of three cells becomes a block: the birth at (1, 1) rests on
    // the three cells of the generation before, whatever was decided
    // for them.
    let mut grid = grid_of(&[(0, 0), (1, 0), (0, 1)]);
    grid.tick();
    assert_eq!(sorted(grid.alive_cells()), vec![(0, 0), (0, 1), (1, 0), (1, 1)]);
}

#[test]
fn empty_grid_stays_empty() {
    let mut grid = SquareGrid::new();
    for _ in 0..10 {
        grid.tick();
        assert_eq!(grid.population(), 0);
        assert_eq!(grid.alive_cells(), vec![]);
    }
}

#[test]
fn tick_at_the_edge_of_the_lattice_gives_birth_only_on_it() {
    let max = i128::MAX;
    let mut grid = SquareGrid::new();
    grid.seed(&[(0, 0), (0, 1), (0, 2)], (max, 0));
    grid.tick();
    assert_eq!(sorted(grid.alive_cells()), vec![(max - 1, 1), (max, 1)]);
    grid.tick();
    assert_eq!(grid.population(), 0);
}

#[test]
fn tick_at_the_lowest_corner_of_the_lattice() {
    let min = i128::MIN;
    let mut grid = SquareGrid::new();
    grid.seed(&[(0, 0), (1, 0), (0, 1)], (min, min));
    grid.tick();
    assert_eq!(
        sorted(grid.alive_cells()),
        vec![(min, min), (min, min + 1), (min + 1, min), (min + 1, min + 1)]
    );
}

#[test]
fn same_seed_gives_the_same_generations() {
    let mut a = SquareGrid::new();
    let mut b = SquareGrid::new();
    insert_glider(&mut a, (2, 5));
    insert_glider(&mut b, (2, 5));
    for _ in 0..17 {
        a.tick();
        b.tick();
        assert_eq!(a.alive_cells(), b.alive_cells());
    }
}

#[test]
fn order_of_seeding_does_not_change_the_generations() {
    let mut a = SquareGrid::new();
    let mut b = SquareGrid::new();
    a.seed(&[(0, 0), (2, 0), (1, 1), (2, 1), (1, 2)], (0, 0));
    b.seed(&[(1, 2), (2, 1), (1, 1), (2, 0), (0, 0)], (0, 0));
    for _ in 0..17 {
        a.tick();
        b.tick();
        assert_eq!(sorted(a.alive_cells()), sorted(b.alive_cells()));
    }
}
