use crucible::{first, run, second, Grid};

const EXAMPLE: &str = "2413432311323\n\
3215453535623\n\
3255245654254\n\
3446585845452\n\
4546657867536\n\
1438598798454\n\
4457876987766\n\
3637877979653\n\
4654967986887\n\
4564679986453\n\
1224686865563\n\
2546548887735\n\
4322674655533\n";

const UNFORTUNATE: &str = "111111111111\n\
999999999991\n\
999999999991\n\
999999999991\n\
999999999991\n";

fn grid(text: &str) -> Grid {
    Grid::parse(text).expect("a well-formed grid")
}

fn ones(width: usize, height: usize) -> Grid {
    Grid::new(vec![vec![1u8; width]; height]).expect("a well-formed grid")
}

#[test]
fn example_with_short_streaks() {
    assert_eq!(first(&grid(EXAMPLE)), Some(102));
}

#[test]
fn example_with_long_streaks() {
    assert_eq!(second(&grid(EXAMPLE)), Some(94));
}

#[test]
fn long_streaks_must_not_stop_early() {
    assert_eq!(second(&grid(UNFORTUNATE)), Some(71));
}

#[test]
fn explicit_bounds_match_entry_points() {
    let g = grid(EXAMPLE);
    assert_eq!(g.shortest_path((0, 0), (12, 12), 1, 3), Some(102));
    assert_eq!(g.shortest_path((0, 0), (12, 12), 4, 10), Some(94));
}

#[test]
fn run_answers_both_questions() {
    assert_eq!(run(EXAMPLE), Some((Some(102), Some(94))));
}

#[test]
fn run_rejects_bad_text() {
    assert_eq!(run("12\n3x\n"), None);
    assert_eq!(run(""), None);
}

#[test]
fn zigzag_on_uniform_grid() {
    assert_eq!(ones(5, 5).shortest_path((0, 0), (4, 4), 1, 1), Some(8));
}

#[test]
fn same_answer_every_time() {
    let g = grid(EXAMPLE);
    let a = g.shortest_path((0, 0), (12, 12), 4, 10);
    let b = g.shortest_path((0, 0), (12, 12), 4, 10);
    assert_eq!(a, b);
}

#[test]
fn more_straight_steps_never_cost_more() {
    let g = grid(EXAMPLE);
    let mut previous = g.shortest_path((0, 0), (12, 12), 1, 1).unwrap();
    for max in 2..=12u8 {
        let now = g.shortest_path((0, 0), (12, 12), 1, max).unwrap();
        assert!(now <= previous);
        previous = now;
    }
}

#[test]
fn longer_minimum_never_costs_less() {
    let g = grid(EXAMPLE);
    let mut previous = g.shortest_path((0, 0), (12, 12), 1, 10).unwrap();
    for min in 2..=4u8 {
        let now = g.shortest_path((0, 0), (12, 12), min, 10).unwrap();
        assert!(now >= previous);
        previous = now;
    }
}

#[test]
fn single_row_beyond_max_streak_is_unreachable() {
    let g = ones(5, 1);
    assert_eq!(g.shortest_path((0, 0), (4, 0), 1, 3), None);
    assert_eq!(g.shortest_path((0, 0), (4, 0), 1, 4), Some(4));
}

#[test]
fn stopping_needs_the_minimum_run() {
    // Two cells to the right need two straight steps; a minimum of three cannot stop there.
    let g = ones(3, 1);
    assert_eq!(g.shortest_path((0, 0), (2, 0), 3, 5), None);
    assert_eq!(g.shortest_path((0, 0), (2, 0), 2, 5), Some(2));
}

#[test]
fn returning_to_start_pays_for_reentry() {
    // Leaving the start and coming back takes a loop of four steps.
    assert_eq!(ones(2, 2).shortest_path((0, 0), (0, 0), 1, 3), Some(4));
}

#[test]
fn start_cell_is_free() {
    let g = grid("91\n19\n");
    assert_eq!(g.shortest_path((0, 0), (1, 0), 1, 3), Some(1));
    assert_eq!(g.shortest_path((0, 0), (1, 1), 1, 3), Some(10));
}

#[test]
fn first_moves_go_down_or_right_only() {
    // From the middle of a row, the cell to the left cannot be reached first.
    let g = grid("515\n");
    assert_eq!(g.shortest_path((1, 0), (0, 0), 1, 3), None);
    assert_eq!(g.shortest_path((1, 0), (2, 0), 1, 3), Some(5));
}

#[test]
fn zero_max_streak_allows_no_move() {
    assert_eq!(ones(3, 3).shortest_path((0, 0), (1, 0), 1, 0), None);
}

#[test]
fn zero_cost_cells_are_free() {
    let g = grid("000\n000\n");
    assert_eq!(g.shortest_path((0, 0), (2, 1), 1, 3), Some(0));
}
