use a_star_graph::{
    is_odd, solve, AStarConfig, AStarData, Cell, Cost, Direction, Grid, GridSet, GridType,
    NeighbourError, Node, Position, Request, Response, SearchError,
};

#[test]
fn h_cost_is_squared_euclidean_distance() {
    let a = Position::new(0, 0);
    let b = Position::new(3, 4);
    assert_eq!(a.h_cost(&b), 25);
    assert_eq!(b.h_cost(&a), 25);
    assert_eq!(a.h_cost(&a), 0);
    assert_eq!(Position::new(10, 2).h_cost(&Position::new(7, 6)), 25);
}

#[test]
fn is_odd_reports_even_numbers() {
    assert!(is_odd(0));
    assert!(!is_odd(1));
    assert!(is_odd(2));
    assert!(!is_odd(7));
}

#[test]
fn direction_costs_and_coordinates() {
    assert_eq!(Direction::North.g_cost(), 10);
    assert_eq!(Direction::East.g_cost(), 10);
    assert_eq!(Direction::South.g_cost(), 10);
    assert_eq!(Direction::West.g_cost(), 10);
    assert_eq!(Direction::NorthEast.g_cost(), 14);
    assert_eq!(Direction::SouthEast.g_cost(), 14);
    assert_eq!(Direction::SouthWest.g_cost(), 14);
    assert_eq!(Direction::NorthWest.g_cost(), 14);
    assert_eq!(Direction::North.get_coordinate(2, 2), (2, 1));
    assert_eq!(Direction::SouthWest.get_coordinate(2, 2), (1, 3));
    assert_eq!(Direction::East.get_coordinate(2, 2), (3, 2));
}

#[test]
fn cost_default_and_f_cost() {
    let worst = Cost::default();
    assert_eq!(worst.g_cost, usize::MAX);
    assert_eq!(worst.h_cost, usize::MAX);
    let c = Cost {
        g_cost: 10,
        h_cost: 25,
    };
    assert_eq!(c.f_cost(), 35);
}

#[test]
fn grid_new_clear_and_cells() {
    let mut g = Grid::new(4, 3);
    assert_eq!(g.dimension(), (4, 3));
    assert_eq!(g.try_get(0, 0), Some(Cell::Path));
    g.set(1, 2, Cell::Block);
    g.set(0, 0, Cell::Start);
    g.set(3, 2, Cell::Visited);
    assert_eq!(g.try_get(1, 2), Some(Cell::Block));
    assert_eq!(g.try_get(9, 9), None);
    g.clear(false);
    // Start markers and walls survive a non-wall clear; the rest reverts.
    assert_eq!(g.try_get(0, 0), Some(Cell::Start));
    assert_eq!(g.try_get(1, 2), Some(Cell::Block));
    assert_eq!(g.try_get(3, 2), Some(Cell::Path));
    g.clear(true);
    assert_eq!(g.try_get(1, 2), Some(Cell::Path));
    assert_eq!(g.try_get(0, 0), Some(Cell::Start));
}

#[test]
fn grid_get_matches_try_get_and_set() {
    let mut g = Grid::new(4, 3);
    g.set(2, 1, Cell::Block);
    // get, try_get and set all address the same (column, row) cell.
    assert_eq!(g.get(2, 1), Cell::Block);
    assert_eq!(g.try_get(2, 1), Some(Cell::Block));
    assert_eq!(g.get(1, 2), Cell::Path);
}

#[test]
fn grid_resize_keeps_plain_cells() {
    let mut g = Grid::new(3, 3);
    g.set(1, 1, Cell::Block);
    g.set(0, 0, Cell::Start);
    g.resize(2, 2);
    assert_eq!(g.dimension(), (2, 2));
    // The start marker does not survive a resize; the wall does.
    assert_eq!(g.try_get(0, 0), Some(Cell::Path));
    assert_eq!(g.try_get(1, 1), Some(Cell::Block));
}

#[test]
fn cell_colors() {
    assert_eq!(Cell::Block.fill_color(), "#111");
    assert_eq!(Cell::Path.fill_color(), "#333");
    assert_eq!(Cell::Start.fill_color(), "#0a0");
    assert_eq!(Cell::End.fill_color(), "#aa0");
    assert_eq!(Cell::ShortestPath.fill_color(), "#aaa");
    assert_eq!(Cell::Visiting.fill_color(), "#03c");
    assert_eq!(Cell::Visited.fill_color(), "#a00");
    assert_eq!(Cell::Block.stroke_color(), "#0a0a0a");
    assert_eq!(Cell::Path.stroke_color(), "#3e3e3e");
    assert_eq!(Cell::Visited.stroke_color(), "#c00");
}

#[test]
fn sparse_grid_blocking() {
    let s = GridSet::new(4, 4, vec![Position::new(1, 1)]);
    assert_eq!(s.dimension(), (4, 4));
    assert!(s.is_blocked(&Position::new(1, 1)));
    assert!(!s.is_blocked(&Position::new(2, 1)));
}

#[test]
fn neighbour_rejections_and_acceptance() {
    let mut g = Grid::new(3, 3);
    g.set(1, 0, Cell::Block);
    let node = Node::new(0, 0);
    let view = GridType::Full(&g);
    // Stepping off the board is rejected as out of bounds.
    assert_eq!(
        node.get_neighbour(Direction::North, view),
        Err(NeighbourError::OutOfBounds)
    );
    // Stepping onto a wall is rejected as blocked.
    assert_eq!(
        node.get_neighbour(Direction::East, view),
        Err(NeighbourError::Blocked)
    );
    // A free in-bounds cell is accepted, unparented.
    let ok = node.get_neighbour(Direction::South, view).unwrap();
    assert_eq!(ok.pos, Position::new(0, 1));
    assert_eq!(ok.parent, None);
    assert_eq!(
        node.get_neighbour_from_grid(Direction::South, &g).unwrap().pos,
        Position::new(0, 1)
    );
    let sparse = GridSet::new(3, 3, vec![Position::new(1, 0)]);
    assert_eq!(
        node.get_neighbour_from_set(Direction::East, &sparse),
        Err(NeighbourError::Blocked)
    );
}

#[test]
fn frontier_seed_push_and_clear() {
    let mut d = AStarData::new(Position::new(0, 0), Position::new(2, 2));
    let top = d.top().unwrap();
    assert_eq!(top.pos, Position::new(0, 0));
    assert!(!d.in_closed(&Node::new(0, 0)));
    let (open, closed) = d.get_lists();
    assert_eq!(open, vec![Position::new(0, 0)]);
    assert!(closed.is_empty());
    d.clear();
    assert_eq!(d.top(), None);
    d.push_open(Position::new(1, 1), 2);
    assert_eq!(d.top().unwrap().pos, Position::new(1, 1));
}

#[test]
fn frontier_expansion_moves_best_to_closed() {
    let g = Grid::new(3, 3);
    let mut d = AStarData::new(Position::new(0, 0), Position::new(2, 2));
    let target = Position::new(2, 2);
    d.find(GridType::Full(&g), &target, true);
    assert!(d.in_closed(&Node::new(0, 0)));
    let (open, closed) = d.get_lists();
    assert_eq!(closed, vec![Position::new(0, 0)]);
    // The three in-bounds neighbours of the corner are now open.
    assert_eq!(open.len(), 3);
    // The eastern neighbour wins the next pop: its f-cost of 15 (g 10 plus
    // squared-distance estimate 5) beats the diagonal's 16, and it was
    // discovered before the southern neighbour that ties it.
    assert_eq!(d.top().unwrap().pos, Position::new(1, 0));
}

#[test]
fn defaults_for_config_request_and_response() {
    let c = AStarConfig::default();
    assert!(c.diagonal);
    assert!(!c.multithreaded);
    assert!(!c.bidirectional);
    assert_eq!(c.start, Position::new(0, 0));
    assert_eq!(c.target, Position::new(0, 0));
    let r = Request::default();
    assert_eq!(r.dimension, (0, 0));
    assert!(r.blocked.is_empty());
    let resp = Response::default();
    assert!(resp.path.is_empty());
    assert!(resp.open.is_empty());
    assert!(resp.closed.is_empty());
    assert_eq!(resp.time, 0);
}

#[test]
fn solve_request_round_trip() {
    let request = Request {
        dimension: (5, 5),
        blocked: vec![],
        a_star: AStarConfig {
            start: Position::new(0, 0),
            target: Position::new(4, 4),
            diagonal: true,
            multithreaded: false,
            bidirectional: false,
        },
    };
    let response = solve(&request).unwrap();
    assert_eq!(response.path.len(), 3);
    assert_eq!(response.time, 0);
    assert!(!response.open.is_empty());
    assert!(!response.closed.is_empty());
}

#[test]
fn solve_request_rejects_bad_endpoints() {
    let request = Request {
        dimension: (3, 3),
        blocked: vec![],
        a_star: AStarConfig {
            start: Position::new(0, 0),
            target: Position::new(9, 9),
            diagonal: true,
            multithreaded: false,
            bidirectional: false,
        },
    };
    assert_eq!(solve(&request), Err(SearchError::OutOfBounds));
}

#[test]
fn solve_request_with_walls() {
    // A vertical wall with a gap at the bottom forces a detour.
    let request = Request {
        dimension: (5, 5),
        blocked: vec![
            Position::new(2, 0),
            Position::new(2, 1),
            Position::new(2, 2),
            Position::new(2, 3),
        ],
        a_star: AStarConfig {
            start: Position::new(0, 0),
            target: Position::new(4, 0),
            diagonal: false,
            multithreaded: false,
            bidirectional: false,
        },
    };
    let response = solve(&request).unwrap();
    assert!(!response.path.is_empty());
    // Around the wall: down to row 4, across, and back up is 12 steps.
    assert!(response.path.len() >= 7);
    for p in &response.path {
        assert!(!request.blocked.contains(p));
    }
}
