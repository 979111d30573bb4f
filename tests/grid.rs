use crucible::{Direction, Grid};

#[test]
fn parses_rows_of_digits() {
    let g = Grid::parse("123\n456\n").unwrap();
    assert_eq!(g.points, vec![vec![1, 2, 3], vec![4, 5, 6]]);
    assert_eq!(g.width(), 3);
    assert_eq!(g.height(), 2);
}

#[test]
fn parses_windows_line_endings() {
    let g = Grid::parse("12\r\n34\r\n").unwrap();
    assert_eq!(g.points, vec![vec![1, 2], vec![3, 4]]);
}

#[test]
fn rejects_malformed_text() {
    assert!(Grid::parse("").is_none());
    assert!(Grid::parse("12").is_none());
    assert!(Grid::parse("12\n3\n").is_none());
    assert!(Grid::parse("1a\n").is_none());
    assert!(Grid::parse("\n").is_none());
    assert!(Grid::parse("12\r34\n").is_none());
}

#[test]
fn new_checks_the_matrix() {
    assert!(Grid::new(vec![]).is_none());
    assert!(Grid::new(vec![vec![]]).is_none());
    assert!(Grid::new(vec![vec![1, 2], vec![3]]).is_none());
    assert!(Grid::new(vec![vec![1, 10]]).is_none());
    assert!(Grid::new(vec![vec![0, 9], vec![9, 0]]).is_some());
}

#[test]
fn cost_lookup_is_bounds_checked() {
    let g = Grid::parse("123\n456\n").unwrap();
    assert_eq!(g.cost_at((0, 0)), Some(1));
    assert_eq!(g.cost_at((2, 1)), Some(6));
    assert_eq!(g.cost_at((3, 0)), None);
    assert_eq!(g.cost_at((0, 2)), None);
    assert_eq!(g.cost_at((-1, 0)), None);
    assert!(g.contains((1, 1)));
    assert!(!g.contains((1, -1)));
}

#[test]
fn neighbours_skip_the_way_back_and_the_edge() {
    let g = Grid::parse("123\n456\n789\n").unwrap();
    let corner = g.adjacent((0, 0), Direction::Down);
    assert_eq!(corner, vec![(Direction::Down, (0, 1)), (Direction::Right, (1, 0))]);
    let middle = g.adjacent((1, 1), Direction::Right);
    assert_eq!(
        middle,
        vec![(Direction::Up, (1, 0)), (Direction::Down, (1, 2)), (Direction::Right, (2, 1))]
    );
}

#[test]
fn directions_reverse_and_step() {
    assert_eq!(Direction::Up.opposite(), Direction::Down);
    assert_eq!(Direction::Left.opposite(), Direction::Right);
    assert_eq!(Direction::Up.next((3, 3)), (3, 2));
    assert_eq!(Direction::Down.next((3, 3)), (3, 4));
    assert_eq!(Direction::Left.next((3, 3)), (2, 3));
    assert_eq!(Direction::Right.next((3, 3)), (4, 3));
    assert_eq!(Direction::Right.index(), 3);
}
