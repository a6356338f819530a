use a_star_graph::{
    AStarBidirectional, AStarConfig, Cell, Grid, GridSet, GridType, Position, SearchError,
};

fn open_config(
    start: (usize, usize),
    target: (usize, usize),
    diagonal: bool,
    bidirectional: bool,
) -> AStarConfig {
    AStarConfig {
        start: Position::new(start.0, start.1),
        target: Position::new(target.0, target.1),
        diagonal,
        multithreaded: false,
        bidirectional,
    }
}

fn solve_on_open_grid(
    width: usize,
    height: usize,
    config: AStarConfig,
) -> (Vec<Position>, Option<usize>) {
    let grid = Grid::new(width, height);
    let mut search = AStarBidirectional::new(config);
    let path = search.solve(GridType::Full(&grid)).unwrap();
    let cost = search.path_cost();
    (path, cost)
}

#[test]
fn no_path_behind_enclosing_wall() {
    // A full ring of walls around the start: no path can exist, with or
    // without diagonal movement.
    let mut grid = Grid::new(5, 5);
    for (x, y) in [
        (1, 1),
        (2, 1),
        (3, 1),
        (1, 2),
        (3, 2),
        (1, 3),
        (2, 3),
        (3, 3),
    ] {
        grid.set(x, y, Cell::Block);
    }
    let mut search = AStarBidirectional::new(open_config((2, 2), (4, 4), true, false));
    let path = search.solve(GridType::Full(&grid)).unwrap();
    assert!(path.is_empty());
    assert_eq!(search.path_cost(), None);
    // The single frontier ends exhausted: no open entries remain.
    let (open, _closed) = search.get_open_and_closed_list();
    assert!(open.is_empty());
}

#[test]
fn no_path_bidirectional_is_empty_too() {
    let mut grid = Grid::new(5, 5);
    for (x, y) in [
        (1, 1),
        (2, 1),
        (3, 1),
        (1, 2),
        (3, 2),
        (1, 3),
        (2, 3),
        (3, 3),
    ] {
        grid.set(x, y, Cell::Block);
    }
    let mut search = AStarBidirectional::new(open_config((2, 2), (4, 4), true, true));
    let path = search.solve(GridType::Full(&grid)).unwrap();
    assert!(path.is_empty());
}

#[test]
fn single_corridor_cost_and_length() {
    // A straight unobstructed 1x6 corridor in 4-directional mode: five
    // cardinal steps at cost 10 each, and four intermediate positions
    // between the excluded endpoints.
    let (path, cost) = solve_on_open_grid(6, 1, open_config((0, 0), (5, 0), false, false));
    assert_eq!(cost, Some(50));
    // The interior cells come back in trace order, far side first.
    assert_eq!(
        path,
        vec![
            Position::new(4, 0),
            Position::new(3, 0),
            Position::new(2, 0),
            Position::new(1, 0),
        ]
    );
}

#[test]
fn diagonal_shortcut_beats_cardinal_route() {
    // Equal dx and dy on an open grid: the diagonal route takes 4 steps of
    // cost 14; the 4-directional route needs 8 steps of cost 10.
    let (diag_path, diag_cost) =
        solve_on_open_grid(5, 5, open_config((0, 0), (4, 4), true, false));
    let (card_path, card_cost) =
        solve_on_open_grid(5, 5, open_config((0, 0), (4, 4), false, false));
    assert_eq!(diag_cost, Some(56));
    assert_eq!(card_cost, Some(80));
    // Strictly fewer steps diagonally: 4 against 8, visible as 3 against 7
    // intermediate positions.
    assert_eq!(diag_path.len(), 3);
    assert_eq!(card_path.len(), 7);
    for p in &diag_path {
        assert_eq!(p.x, p.y);
    }
}

#[test]
fn bidirectional_open_grid_finds_a_path() {
    // On the open 5x5 diagonal grid the two modes both succeed, but the
    // meeting-point stitching settles on a costlier route than the
    // unidirectional search: the frontiers meet off the diagonal before
    // either has finalized the optimal crossing.
    let (uni_path, uni) = solve_on_open_grid(5, 5, open_config((0, 0), (4, 4), true, false));
    let (bi_path, bi) = solve_on_open_grid(5, 5, open_config((0, 0), (4, 4), true, true));
    assert_eq!(uni, Some(56));
    assert!(!uni_path.is_empty());
    assert!(!bi_path.is_empty());
    assert!(bi.unwrap() >= uni.unwrap());
}

#[test]
fn bidirectional_cost_matches_unidirectional_corridor() {
    let (_, uni) = solve_on_open_grid(7, 1, open_config((0, 0), (6, 0), false, false));
    let (_, bi) = solve_on_open_grid(7, 1, open_config((0, 0), (6, 0), false, true));
    assert_eq!(uni, bi);
}

#[test]
fn bidirectional_cost_matches_unidirectional_with_obstacle() {
    let mut grid = Grid::new(6, 6);
    for y in 0..5 {
        grid.set(3, y, Cell::Block);
    }
    let mut uni = AStarBidirectional::new(open_config((0, 0), (5, 0), true, false));
    let uni_path = uni.solve(GridType::Full(&grid)).unwrap();
    let mut bi = AStarBidirectional::new(open_config((0, 0), (5, 0), true, true));
    let bi_path = bi.solve(GridType::Full(&grid)).unwrap();
    assert!(!uni_path.is_empty());
    assert!(!bi_path.is_empty());
    assert_eq!(uni.path_cost(), bi.path_cost());
}

#[test]
fn clear_then_solve_reproduces_the_path() {
    // Determinism under re-seeding: clearing and solving again with
    // unchanged start, target and grid gives the same path.
    let mut grid = Grid::new(6, 6);
    grid.set(2, 2, Cell::Block);
    grid.set(2, 3, Cell::Block);
    let mut search = AStarBidirectional::new(open_config((0, 0), (5, 5), true, false));
    let first = search.solve(GridType::Full(&grid)).unwrap();
    let first_cost = search.path_cost();
    search.clear();
    let second = search.solve(GridType::Full(&grid)).unwrap();
    assert_eq!(first, second);
    assert_eq!(first_cost, search.path_cost());
}

#[test]
fn clear_then_solve_reproduces_the_path_bidirectional() {
    let grid = Grid::new(5, 5);
    let mut search = AStarBidirectional::new(open_config((0, 0), (4, 2), true, true));
    let first = search.solve(GridType::Full(&grid)).unwrap();
    search.clear();
    let second = search.solve(GridType::Full(&grid)).unwrap();
    assert_eq!(first, second);
}

#[test]
fn open_five_by_five_diagonal_scenario() {
    // The concrete scenario: 5x5 open grid, start (0,0), target (4,4),
    // diagonal on, bidirectional off. Four diagonal steps of cost 14, and
    // three intermediate positions with the endpoints excluded.
    let (path, cost) = solve_on_open_grid(5, 5, open_config((0, 0), (4, 4), true, false));
    assert_eq!(cost, Some(4 * 14));
    assert_eq!(path.len(), 3);
    assert!(path.contains(&Position::new(1, 1)));
    assert!(path.contains(&Position::new(2, 2)));
    assert!(path.contains(&Position::new(3, 3)));
}

#[test]
fn sparse_grid_matches_dense_grid() {
    let mut dense = Grid::new(6, 6);
    dense.set(3, 0, Cell::Block);
    dense.set(3, 1, Cell::Block);
    dense.set(3, 2, Cell::Block);
    let blocked = vec![
        Position::new(3, 0),
        Position::new(3, 1),
        Position::new(3, 2),
    ];
    let sparse = GridSet::new(6, 6, blocked);
    let mut a = AStarBidirectional::new(open_config((0, 0), (5, 0), true, false));
    let dense_path = a.solve(GridType::Full(&dense)).unwrap();
    let mut b = AStarBidirectional::new(open_config((0, 0), (5, 0), true, false));
    let sparse_path = b.solve(GridType::Sparse(&sparse)).unwrap();
    assert_eq!(dense_path, sparse_path);
    assert_eq!(a.path_cost(), b.path_cost());
}

#[test]
fn step_paints_progress_and_stays_reentrant() {
    let mut grid = Grid::new(4, 4);
    let mut search = AStarBidirectional::new(open_config((0, 0), (3, 3), true, false));
    search.step(&mut grid);
    // Progress queries are safe between steps.
    let (open1, closed1) = search.get_open_and_closed_list();
    assert!(!open1.is_empty());
    assert_eq!(closed1.len(), 1);
    search.step(&mut grid);
    let (_, closed2) = search.get_open_and_closed_list();
    assert_eq!(closed2.len(), 2);
    // The grid shows visited and visiting cells, but never overwrites the
    // endpoints.
    let mut painted = 0;
    for y in 0..4 {
        for x in 0..4 {
            let cell = grid.try_get(x, y).unwrap();
            if cell == Cell::Visiting || cell == Cell::Visited || cell == Cell::ShortestPath {
                painted += 1;
            }
        }
    }
    assert!(painted > 0);
    assert_eq!(grid.try_get(0, 0), Some(Cell::Path));
}

#[test]
fn set_start_and_set_target_reseed() {
    let grid = Grid::new(5, 5);
    let mut search = AStarBidirectional::new(open_config((0, 0), (4, 4), true, false));
    let _ = search.solve(GridType::Full(&grid)).unwrap();
    search.set_start(Position::new(4, 0));
    assert_eq!(search.start(), Position::new(4, 0));
    let (open, closed) = search.get_open_and_closed_list();
    assert_eq!(open, vec![Position::new(4, 0)]);
    assert!(closed.is_empty());
    search.set_target(Position::new(0, 4));
    assert_eq!(search.target(), Position::new(0, 4));
    let path = search.solve(GridType::Full(&grid)).unwrap();
    assert_eq!(path.len(), 3);
}

#[test]
fn toggling_bidirectional_mode() {
    let mut search = AStarBidirectional::new(open_config((0, 0), (4, 4), true, false));
    assert!(!search.bidirectional());
    search.set_bidirectional(true);
    assert!(search.bidirectional());
    search.set_bidirectional(false);
    assert!(!search.bidirectional());
    assert!(!search.multithreaded());
}

#[test]
fn solve_rejects_endpoints_outside_the_grid() {
    let grid = Grid::new(3, 3);
    let mut search = AStarBidirectional::new(open_config((0, 0), (4, 4), true, false));
    let result = search.solve(GridType::Full(&grid));
    assert_eq!(result, Err(SearchError::OutOfBounds));
}

#[test]
fn solve_rejects_state_recorded_outside_the_grid() {
    // Positions recorded while stepping on a large grid make a later solve
    // on a smaller grid invalid, even though both endpoints fit in it.
    let mut big = Grid::new(4, 4);
    let mut search = AStarBidirectional::new(open_config((1, 1), (0, 0), true, false));
    search.step(&mut big);
    let (open, _) = search.get_open_and_closed_list();
    assert!(open.contains(&Position::new(2, 2)));
    let small = Grid::new(2, 2);
    assert_eq!(
        search.solve(GridType::Full(&small)),
        Err(SearchError::OutOfBounds)
    );
}

#[test]
fn clear_is_idempotent() {
    let grid = Grid::new(5, 5);
    let mut search = AStarBidirectional::new(open_config((0, 0), (4, 4), true, true));
    let _ = search.solve(GridType::Full(&grid)).unwrap();
    search.clear();
    let (open_once, closed_once) = search.get_open_and_closed_list();
    search.clear();
    let (open_twice, closed_twice) = search.get_open_and_closed_list();
    assert_eq!(open_once, open_twice);
    assert_eq!(closed_once, closed_twice);
    assert!(closed_once.is_empty());
    assert_eq!(open_once, vec![Position::new(0, 0), Position::new(4, 4)]);
}

#[test]
fn top_and_end_points() {
    let search = AStarBidirectional::new(open_config((1, 2), (3, 3), true, false));
    let top = search.top().unwrap();
    assert_eq!(top.pos, Position::new(1, 2));
    assert_eq!(top.parent, None);
    assert_eq!(
        search.end_points(),
        (Position::new(1, 2), Position::new(3, 3))
    );
    assert!(search.not_start_nor_end(Position::new(0, 0)));
    assert!(!search.not_start_nor_end(Position::new(1, 2)));
    assert!(search.diagonal());
}
