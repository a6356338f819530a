//! A bidirectional, grid-based shortest-path search engine.
//!
//! Given a start cell, a target cell, a set of blocked cells and a movement
//! policy (4- or 8-directional), the search finds a minimum-cost path and can
//! expose its progress one expansion step at a time, or run to completion.

mod a_star;
mod grid;
mod node;

pub use a_star::{AStarData, AStarBidirectional, AStarConfig, SearchError, Entry, DataView,
    SearchView, has_pos, pos_idx, distinct_positions, disjoint_positions, positions_of,
    best_idx, best_idx_upto, in_grid, lemma_positions_capacity, chain_from, walk_node,
    spec_find, spec_find_in_dir, spec_expand_dirs, spec_painted, grid_cell, dv_top,
    dv_solved_with, dv_find, dv_trace, dv_in_grid, sv_hits, sv_is_hit, sv_after_solved,
    sv_expand, sv_find, sv_solve, sv_trace, sv_in_grid, sv_new, solve_fuel, sv_painted_cell,
    dv_painted_cell, corridor_gm, corridor_entry, corridor_state, corridor_final,
    entries_in, region_closed,
    lemma_reseed_solve_deterministic, lemma_no_detection_no_path, lemma_clear_idempotent,
    lemma_single_corridor, lemma_separated_no_path, lemma_pos_idx_at};
pub use grid::{Cell, Grid, GridSet, GridType, GridModel, NeighbourError};
pub use node::{Position, Direction, Cost, Node, is_odd, directions, spec_directions, spec_h_cost, spec_prefer, prefer, CARDINAL_COST, DIAGONAL_COST, H_LIMIT};

use vstd::prelude::*;

verus! {

/// Grid coordinates large enough for any supported grid, small enough that
/// every cost the search computes fits in `usize` on 32-bit targets.
pub const MAX_DIM: usize = 4096;

/// A search request as it arrives from a transport boundary: grid bounds,
/// the blocked positions, and the search configuration.
pub struct Request {
    pub dimension: (usize, usize),
    pub blocked: Vec<Position>,
    pub a_star: AStarConfig,
}

impl Default for Request {
    /// An empty grid with the default search configuration.
    fn default() -> (r: Self)
        ensures
            r.dimension == (0usize, 0usize),
            r.blocked@ == Seq::<Position>::empty(),
            r.a_star.diagonal == true,
            r.a_star.start == (Position { x: 0, y: 0 }),
            r.a_star.target == (Position { x: 0, y: 0 }),
            r.a_star.multithreaded == false,
            r.a_star.bidirectional == false,
    {
        let blocked: Vec<Position> = Vec::new();
        Self { dimension: (0, 0), blocked, a_star: Default::default() }
    }
}

/// A finished search's outcome: the traced path, both frontiers' open and
/// closed snapshots, and the elapsed milliseconds a caller may fill in.
#[derive(Debug, Clone, PartialEq)]
pub struct Response {
    pub path: Vec<Position>,
    pub open: Vec<Position>,
    pub closed: Vec<Position>,
    pub time: usize,
}

impl Default for Response {
    fn default() -> (r: Self)
        ensures
            r.path@ == Seq::<Position>::empty(),
            r.open@ == Seq::<Position>::empty(),
            r.closed@ == Seq::<Position>::empty(),
            r.time == 0,
    {
        let path: Vec<Position> = Vec::new();
        let open: Vec<Position> = Vec::new();
        let closed: Vec<Position> = Vec::new();
        Self { path, open, closed, time: 0 }
    }
}

/// The grid model a request describes: its bounds and blocked positions.
pub open spec fn spec_request_gm(req: Request) -> GridModel {
    GridModel {
        width: req.dimension.0 as int,
        height: req.dimension.1 as int,
        blocked: Set::new(|p: Position| req.blocked@.contains(p)),
    }
}

/// Whether a request's bounds are supported and both endpoints lie inside
/// them.
pub open spec fn spec_request_ok(req: Request) -> bool {
    &&& req.dimension.0 <= MAX_DIM
    &&& req.dimension.1 <= MAX_DIM
    &&& req.a_star.start.x < req.dimension.0
    &&& req.a_star.start.y < req.dimension.1
    &&& req.a_star.target.x < req.dimension.0
    &&& req.a_star.target.y < req.dimension.1
}

/// Serve one search request: validate it, run the configured search over
/// the sparse grid it describes, and return the path and both progress
/// snapshots. The elapsed-time field is left at zero for the caller to
/// fill. Requests whose endpoints lie outside the grid, or whose grid is
/// larger than supported, are rejected.
pub fn solve(request: &Request) -> (r: Result<Response, SearchError>)
    ensures
        r is Ok <==> spec_request_ok(*request),
        r matches Ok(resp) ==> ({
            let gm = spec_request_gm(*request);
            let fin = sv_solve(sv_new(request.a_star), gm, solve_fuel(gm));
            &&& resp.path@ == sv_trace(fin)
            &&& resp.open@ == positions_of(fin.start_data.open_list) + (match fin.target_data {
                Some(td) => positions_of(td.open_list),
                None => Seq::<Position>::empty(),
            })
            &&& resp.closed@ == positions_of(fin.start_data.closed_list) + (
            match fin.target_data {
                Some(td) => positions_of(td.closed_list),
                None => Seq::<Position>::empty(),
            })
            &&& resp.time == 0
        }),
        r matches Err(e) ==> e == SearchError::OutOfBounds,
{
    let (width, height) = request.dimension;
    if !(width <= MAX_DIM && height <= MAX_DIM && request.a_star.start.x < width
        && request.a_star.start.y < height && request.a_star.target.x < width
        && request.a_star.target.y < height) {
        return Err(SearchError::OutOfBounds);
    }
    let mut blocked: Vec<Position> = Vec::new();
    let mut i: usize = 0;
    while i < request.blocked.len()
        invariant
            i <= request.blocked@.len(),
            blocked@ == request.blocked@.take(i as int),
        decreases request.blocked@.len() - i,
    {
        blocked.push(request.blocked[i]);
        proof {
            assert(blocked@ =~= request.blocked@.take(i as int + 1));
        }
        i = i + 1;
    }
    proof {
        assert(request.blocked@.take(request.blocked@.len() as int) =~= request.blocked@);
    }
    let grid = GridSet::new(width, height, blocked);
    let mut search = AStarBidirectional::new(request.a_star);
    let result = search.solve(GridType::Sparse(&grid));
    let path = match result {
        Ok(p) => p,
        Err(_) => {
            proof {
                assert(sv_in_grid(sv_new(request.a_star), spec_request_gm(*request)));
                assert(false);
            }
            Vec::new()
        },
    };
    let (open, closed) = search.get_open_and_closed_list();
    Ok(Response { path, open, closed, time: 0 })
}

} // verus!
